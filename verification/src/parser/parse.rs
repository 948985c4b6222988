//! The parser: turns the token stream into the event stream of
//! documents, collections, scalars and aliases.

use crate::error::{Error, Result};
use crate::parser::{Event, EventType, ScalarStyle};
use crate::position::Position;
use crate::scanner::{QuoteStyle, Token, TokenType};
use vstd::prelude::*;

verus! {

/// How much an event changes the collection nesting depth.
pub open spec fn nesting_delta(e: Event) -> int {
    match e.event_type {
        EventType::SequenceStart { .. } | EventType::MappingStart { .. } => 1,
        EventType::SequenceEnd | EventType::MappingEnd => -1,
        _ => 0,
    }
}

/// The collection nesting depth after a run of events: starts minus ends.
pub open spec fn nesting(events: Seq<Event>) -> int
    decreases events.len(),
{
    if events.len() == 0 {
        0
    } else {
        nesting(events.drop_last()) + nesting_delta(events.last())
    }
}

/// Pushing an event changes the depth by that event's delta.
pub proof fn lemma_nesting_push(events: Seq<Event>, e: Event)
    ensures
        nesting(events.push(e)) == nesting(events) + nesting_delta(e),
{
    assert(events.push(e).drop_last() =~= events);
}

/// `new` is `old` with more events after it.
pub open spec fn extends(old: Seq<Event>, new: Seq<Event>) -> bool {
    &&& old.len() <= new.len()
    &&& forall|i: int| 0 <= i < old.len() ==> #[trigger] new[i] == old[i]
}

/// Append an event, keeping track of the nesting depth.
fn emit(out: &mut Vec<Event>, e: Event)
    ensures
        final(out)@ == old(out)@.push(e),
        nesting(final(out)@) == nesting(old(out)@) + nesting_delta(e),
{
    out.push(e);
    proof {
        lemma_nesting_push(old(out)@, e);
    }
}

/// The token at `pos`, or an error at the end of the tokens.
fn token_at(tokens: &[Token], pos: usize) -> (r: Result<&Token>)
    ensures
        r is Ok ==> pos < tokens@.len() && pos < usize::MAX,
        r matches Ok(t) ==> *t == tokens@[pos as int],
        r is Err ==> pos >= tokens@.len(),
{
    if pos < tokens.len() {
        Ok(&tokens[pos])
    } else {
        Err(Error::parse(Position::new(), "unexpected end of the token stream"))
    }
}

/// Whether the token at `pos` is missing or ends a part of an entry (see
/// `ends_entry_part`).
pub open spec fn ends_entry_part_spec(tokens: Seq<Token>, pos: usize, flow_closer: u8, stop_at_key: bool) -> bool {
    pos >= tokens.len() || match tokens[pos as int].token_type {
        TokenType::Key => stop_at_key,
        TokenType::Value => true,
        TokenType::BlockEnd => flow_closer == 0,
        TokenType::BlockEntry => flow_closer == 0 && !stop_at_key,
        TokenType::FlowEntry => flow_closer != 0,
        TokenType::FlowSequenceEnd => flow_closer == 1,
        TokenType::FlowMappingEnd => flow_closer == 2,
        TokenType::StreamEnd => true,
        _ => false,
    }
}

/// Whether the token at `pos` is missing or ends a document's content.
pub open spec fn at_document_edge_spec(tokens: Seq<Token>, pos: usize) -> bool {
    pos >= tokens.len() || match tokens[pos as int].token_type {
        TokenType::YamlDirective(..) | TokenType::TagDirective(..) | TokenType::DocumentStart
        | TokenType::DocumentEnd | TokenType::StreamEnd => true,
        _ => false,
    }
}

/// Whether the token at `pos` exists and is a key, value or block end
/// (or, in flow context, an entry separator or the given closer).
fn ends_entry_part(tokens: &[Token], pos: usize, flow_closer: u8, stop_at_key: bool) -> (b: bool)
    ensures
        b == ends_entry_part_spec(tokens@, pos, flow_closer, stop_at_key),
{
    if pos >= tokens.len() {
        return true;
    }
    match &tokens[pos].token_type {
        TokenType::Key => stop_at_key,
        TokenType::Value => true,
        TokenType::BlockEnd => flow_closer == 0,
        TokenType::BlockEntry => flow_closer == 0 && !stop_at_key,
        TokenType::FlowEntry => flow_closer != 0,
        TokenType::FlowSequenceEnd => flow_closer == 1,
        TokenType::FlowMappingEnd => flow_closer == 2,
        TokenType::StreamEnd => true,
        _ => false,
    }
}

/// `e` is an empty plain scalar at `position` with the given anchor and
/// tag; it is plain-implicit exactly when it has no tag.
pub open spec fn is_empty_scalar(e: Event, position: Position, anchor: Option<String>, tag: Option<String>) -> bool {
    &&& e.position == position
    &&& e.event_type matches EventType::Scalar {
        anchor: a,
        tag: t,
        value,
        plain_implicit,
        quoted_implicit,
        style,
    } && a == anchor && t == tag && value@.len() == 0 && plain_implicit == (tag is None) && !quoted_implicit
        && style == ScalarStyle::Plain
}

/// The text of a scalar token, if it is one.
pub open spec fn token_text(t: TokenType) -> Option<String> {
    match t {
        TokenType::Scalar(v, _) => Some(v),
        TokenType::BlockScalarLiteral(v) => Some(v),
        TokenType::BlockScalarFolded(v) => Some(v),
        _ => None,
    }
}

/// An empty plain scalar standing for a missing node.
fn empty_scalar(position: Position) -> (e: Event)
    ensures
        nesting_delta(e) == 0,
        is_empty_scalar(e, position, None, None),
{
    Event::scalar(position, None, None, String::new(), true, false, ScalarStyle::Plain)
}

/// An empty plain scalar carrying an anchor or tag whose node has no
/// content.
fn decorated_empty(position: Position, anchor: Option<String>, tag: Option<String>) -> (e: Event)
    ensures
        nesting_delta(e) == 0,
        is_empty_scalar(e, position, anchor, tag),
{
    let plain_implicit = tag.is_none();
    Event::scalar(position, anchor, tag, String::new(), plain_implicit, false, ScalarStyle::Plain)
}

/// The scalar style of a scalar token.
fn scalar_style(t: &TokenType) -> (s: ScalarStyle)
    ensures
        s == match *t {
            TokenType::Scalar(_, QuoteStyle::Single) => ScalarStyle::SingleQuoted,
            TokenType::Scalar(_, QuoteStyle::Double) => ScalarStyle::DoubleQuoted,
            TokenType::BlockScalarLiteral(_) => ScalarStyle::Literal,
            TokenType::BlockScalarFolded(_) => ScalarStyle::Folded,
            _ => ScalarStyle::Plain,
        },
{
    match t {
        TokenType::Scalar(_, QuoteStyle::Single) => ScalarStyle::SingleQuoted,
        TokenType::Scalar(_, QuoteStyle::Double) => ScalarStyle::DoubleQuoted,
        TokenType::BlockScalarLiteral(_) => ScalarStyle::Literal,
        TokenType::BlockScalarFolded(_) => ScalarStyle::Folded,
        _ => ScalarStyle::Plain,
    }
}

/// Whether the tokens at `pos` are `n` decorations of a node (an anchor,
/// a tag, or both in either order) followed by the node's scalar text:
/// the anchor's name, the tag's text and the scalar's value.
pub open spec fn decorated_scalar_tokens(tokens: Seq<Token>, pos: int, n: int) -> Option<
    (Option<String>, Option<String>, String),
> {
    if n == 1 {
        match (tokens[pos].token_type, token_text(tokens[pos + 1].token_type)) {
            (TokenType::Anchor(a), Some(v)) => Some((Some(a), None, v)),
            (TokenType::Tag(t), Some(v)) => Some((None, Some(t), v)),
            _ => None,
        }
    } else {
        match (tokens[pos].token_type, tokens[pos + 1].token_type, token_text(tokens[pos + 2].token_type)) {
            (TokenType::Anchor(a), TokenType::Tag(t), Some(v)) => Some((Some(a), Some(t), v)),
            (TokenType::Tag(t), TokenType::Anchor(a), Some(v)) => Some((Some(a), Some(t), v)),
            _ => None,
        }
    }
}

/// Parse one node starting at `pos`: an alias, a scalar, or a collection,
/// with an optional anchor and tag. `block` allows block collections;
/// `indentless` allows a sequence whose entries sit at the parent
/// mapping's indentation. Returns the position after the node.
pub fn parse_node(tokens: &[Token], pos: usize, out: &mut Vec<Event>, block: bool, indentless: bool)
    -> (r: Result<usize>)
    requires
        pos <= tokens@.len(),
    ensures
        r matches Ok(p) ==> pos < p <= tokens@.len() && nesting(final(out)@) == nesting(old(out)@),
        extends(old(out)@, final(out)@),
        pos == tokens@.len() ==> r is Err,
        pos < tokens@.len() ==> match tokens@[pos as int].token_type {
            TokenType::Alias(name) => r == Ok::<usize, Error>((pos + 1) as usize) && final(out)@ == old(out)@.push(
                Event { event_type: EventType::Alias { anchor: name }, position: tokens@[pos as int].start_position },
            ),
            _ => token_text(tokens@[pos as int].token_type) matches Some(text) ==> r == Ok::<usize, Error>(
                (pos + 1) as usize,
            ) && final(out)@.len() == old(out)@.len() + 1 && (final(out)@.last().event_type matches EventType::Scalar {
                anchor,
                tag,
                value,
                ..
            } && anchor is None && tag is None && value == text),
        },
        pos + 1 < tokens@.len() ==> (decorated_scalar_tokens(tokens@, pos as int, 1) matches Some((a, t, v)) ==> (r
            == Ok::<usize, Error>((pos + 2) as usize) && final(out)@.len() == old(out)@.len() + 1 && (final(out)@.last().event_type matches EventType::Scalar { anchor, tag, value, .. } && anchor == a && tag == t
            && value == v))),
        pos + 2 < tokens@.len() ==> (decorated_scalar_tokens(tokens@, pos as int, 2) matches Some((a, t, v)) ==> (r
            == Ok::<usize, Error>((pos + 3) as usize) && final(out)@.len() == old(out)@.len() + 1 && (final(out)@.last().event_type matches EventType::Scalar { anchor, tag, value, .. } && anchor == a && tag == t
            && value == v))),
    decreases tokens@.len() - pos, 1int,
{
    let t = match token_at(tokens, pos) {
            Ok(t) => t,
            Err(e) => return Err(e),
        };
    if let TokenType::Alias(name) = &t.token_type {
        emit(out, Event::alias(t.start_position, name.clone()));
        return Ok(pos + 1);
    }
    let mut cur = pos;
    let mut anchor: Option<String> = None;
    let mut tag: Option<String> = None;
    let mut k: usize = 0;
    while k < 2
        invariant
            k == 0 ==> cur == pos && anchor is None && tag is None,
            k == 1 ==> cur <= pos + 1,
            k >= 1 && (tokens@[pos as int].token_type is Anchor || tokens@[pos as int].token_type is Tag) ==> cur
                >= pos + 1,
            k >= 1 && (tokens@[pos as int].token_type matches TokenType::Anchor(a)) ==> anchor == Some(
                tokens@[pos as int].token_type->Anchor_0,
            ),
            k >= 1 && (tokens@[pos as int].token_type matches TokenType::Tag(t)) ==> tag == Some(
                tokens@[pos as int].token_type->Tag_0,
            ),
            k >= 2 && pos + 1 < tokens@.len() && tokens@[pos as int].token_type is Anchor && (tokens@[pos
                + 1].token_type is Tag) ==> tag == Some(tokens@[pos + 1].token_type->Tag_0),
            k >= 2 && pos + 1 < tokens@.len() && tokens@[pos as int].token_type is Tag && (tokens@[pos
                + 1].token_type is Anchor) ==> anchor == Some(tokens@[pos + 1].token_type->Anchor_0),
            tag is Some ==> tokens@[pos as int].token_type is Tag || (pos + 1 < tokens@.len()
                && tokens@[pos as int].token_type is Anchor && tokens@[pos + 1].token_type is Tag),
            anchor is Some ==> tokens@[pos as int].token_type is Anchor || (pos + 1 < tokens@.len()
                && tokens@[pos as int].token_type is Tag && tokens@[pos + 1].token_type is Anchor),
            pos <= cur <= tokens@.len(),
            cur == pos + (if anchor is Some { 1int } else { 0 }) + (if tag is Some { 1int } else { 0 }),
            k <= 2,
            pos < tokens@.len(),
            !(tokens@[pos as int].token_type is Anchor || tokens@[pos as int].token_type is Tag) ==> cur == pos,
        decreases 2 - k,
    {
        if cur < tokens.len() {
            match &tokens[cur].token_type {
                TokenType::Anchor(name) => {
                    if anchor.is_none() {
                        anchor = Some(name.clone());
                        cur = cur + 1;
                    }
                },
                TokenType::Tag(text) => {
                    if tag.is_none() {
                        tag = Some(text.clone());
                        cur = cur + 1;
                    }
                },
                _ => {},
            }
        }
        k = k + 1;
    }
    let decorated = cur > pos;
    if cur >= tokens.len() {
        if decorated {
            emit(out, decorated_empty(t.start_position, anchor, tag));
            return Ok(cur);
        }
        return Err(Error::parse(t.start_position, "expected a node"));
    }
    let n = &tokens[cur];
    let here = n.start_position;
    match &n.token_type {
        TokenType::Scalar(value, _) | TokenType::BlockScalarLiteral(value) | TokenType::BlockScalarFolded(
            value,
        ) => {
            let style = scalar_style(&n.token_type);
            let plain = matches!(style, ScalarStyle::Plain);
            let plain_implicit = (plain && tag.is_none()) || match &tag {
                Some(text) => crate::text::str_eq(text.as_str(), "!"),
                None => false,
            };
            let quoted_implicit = !plain && tag.is_none();
            emit(
                out,
                Event::scalar(here, anchor, tag, value.clone(), plain_implicit, quoted_implicit, style),
            );
            Ok(cur + 1)
        },
        TokenType::BlockEntry => {
            if block && indentless {
                emit(out, Event::sequence_start(here, anchor, tag, false));
                let p = parse_indentless_sequence(tokens, cur, out)?;
                Ok(p)
            } else if decorated {
                emit(out, decorated_empty(here, anchor, tag));
                Ok(cur)
            } else {
                Err(Error::parse(here, "a sequence entry is not allowed here"))
            }
        },
        TokenType::FlowSequenceStart => {
            emit(out, Event::sequence_start(here, anchor, tag, true));
            parse_flow_sequence(tokens, cur + 1, out)
        },
        TokenType::FlowMappingStart => {
            emit(out, Event::mapping_start(here, anchor, tag, true));
            parse_flow_mapping(tokens, cur + 1, out)
        },
        TokenType::BlockSequenceStart => {
            if block {
                emit(out, Event::sequence_start(here, anchor, tag, false));
                parse_block_sequence(tokens, cur + 1, out)
            } else if decorated {
                emit(out, decorated_empty(here, anchor, tag));
                Ok(cur)
            } else {
                Err(Error::parse(here, "a block sequence is not allowed here"))
            }
        },
        TokenType::BlockMappingStart => {
            if block {
                emit(out, Event::mapping_start(here, anchor, tag, false));
                parse_block_mapping(tokens, cur + 1, out)
            } else if decorated {
                emit(out, decorated_empty(here, anchor, tag));
                Ok(cur)
            } else {
                Err(Error::parse(here, "a block mapping is not allowed here"))
            }
        },
        _ => {
            if decorated {
                emit(out, decorated_empty(here, anchor, tag));
                Ok(cur)
            } else {
                Err(Error::parse(here, "expected the content of a node"))
            }
        },
    }
}

/// The node after an indicator, or an empty scalar at `empty_at` when
/// the next token ends this part of the entry.
fn parse_part(
    tokens: &[Token],
    pos: usize,
    out: &mut Vec<Event>,
    empty_at: Position,
    flow_closer: u8,
    stop_at_key: bool,
    indentless: bool,
) -> (r: Result<usize>)
    requires
        pos <= tokens@.len(),
    ensures
        r matches Ok(p) ==> pos <= p <= tokens@.len() && nesting(final(out)@) == nesting(old(out)@),
        extends(old(out)@, final(out)@),
        ends_entry_part_spec(tokens@, pos, flow_closer, stop_at_key) ==> r == Ok::<usize, Error>(pos)
            && final(out)@.len() == old(out)@.len() + 1 && is_empty_scalar(final(out)@.last(), empty_at, None, None),
    decreases tokens@.len() - pos, 2int,
{
    if ends_entry_part(tokens, pos, flow_closer, stop_at_key) {
        emit(out, empty_scalar(empty_at));
        Ok(pos)
    } else {
        parse_node(tokens, pos, out, flow_closer == 0, indentless)
    }
}

/// Entries of a block sequence, after its start token, up to and
/// including its block end.
pub fn parse_block_sequence(tokens: &[Token], pos: usize, out: &mut Vec<Event>) -> (r: Result<usize>)
    requires
        0 < pos <= tokens@.len(),
    ensures
        r matches Ok(p) ==> pos < p <= tokens@.len() && nesting(final(out)@) == nesting(old(out)@) - 1,
        extends(old(out)@, final(out)@),
        pos == tokens@.len() ==> r is Err,
        pos < tokens@.len() && tokens@[pos as int].token_type is BlockEnd ==> r == Ok::<usize, Error>((pos + 1) as usize)
            && final(out)@ == old(out)@.push(Event { event_type: EventType::SequenceEnd, position: tokens@[pos as int].start_position }),
    decreases tokens@.len() - pos, 4int,
{
    let mut cur = pos;
    loop
        invariant
            pos <= cur <= tokens@.len(),
            nesting(out@) == nesting(old(out)@),
            extends(old(out)@, out@),
            pos < tokens@.len() && tokens@[pos as int].token_type is BlockEnd ==> cur == pos && out@ == old(out)@,
            pos == tokens@.len() ==> cur == pos,
        decreases tokens@.len() - cur,
    {
        let t = match token_at(tokens, cur) {
            Ok(t) => t,
            Err(e) => return Err(e),
        };
        match &t.token_type {
            TokenType::BlockEntry => {
                let after = t.end_position;
                let p = parse_part(tokens, cur + 1, out, after, 0, false, false)?;
                cur = p;
            },
            TokenType::BlockEnd => {
                emit(out, Event::sequence_end(t.start_position));
                return Ok(cur + 1);
            },
            _ => {
                return Err(Error::parse(t.start_position, "expected a sequence entry or the end of a block"));
            },
        }
    }
}

/// Entries of a sequence whose `-` entries sit at the indentation of the
/// enclosing mapping; it ends at the first token that is not an entry.
pub fn parse_indentless_sequence(tokens: &[Token], pos: usize, out: &mut Vec<Event>) -> (r: Result<usize>)
    requires
        pos < tokens@.len(),
        tokens@[pos as int].token_type is BlockEntry,
    ensures
        r matches Ok(p) ==> pos < p <= tokens@.len() && nesting(final(out)@) == nesting(old(out)@) - 1,
        extends(old(out)@, final(out)@),
        ends_entry_part_spec(tokens@, (pos + 1) as usize, 0, true) && !(pos + 1 < tokens@.len() && tokens@[pos
            + 1].token_type is BlockEntry) ==> r == Ok::<usize, Error>((pos + 1) as usize),
    decreases tokens@.len() - pos, 0int,
{
    let mut cur = pos;
    loop
        invariant
            pos <= cur <= tokens@.len(),
            pos < tokens@.len(),
            cur == pos ==> tokens@[pos as int].token_type is BlockEntry,
            ends_entry_part_spec(tokens@, (pos + 1) as usize, 0, true) && !(pos + 1 < tokens@.len() && tokens@[pos
                + 1].token_type is BlockEntry) ==> cur <= pos + 1,
            nesting(out@) == nesting(old(out)@),
            extends(old(out)@, out@),
        decreases tokens@.len() - cur,
    {
        let is_entry = cur < tokens.len() && matches!(tokens[cur].token_type, TokenType::BlockEntry);
        if is_entry {
            let after = tokens[cur].end_position;
            let p = parse_part(tokens, cur + 1, out, after, 0, true, false)?;
            cur = p;
            continue;
        }
        let at = if cur < tokens.len() {
            tokens[cur].start_position
        } else {
            Position::new()
        };
        emit(out, Event::sequence_end(at));
        return Ok(cur);
    }
}

/// Entries of a block mapping, after its start token, up to and
/// including its block end.
pub fn parse_block_mapping(tokens: &[Token], pos: usize, out: &mut Vec<Event>) -> (r: Result<usize>)
    requires
        0 < pos <= tokens@.len(),
    ensures
        r matches Ok(p) ==> pos < p <= tokens@.len() && nesting(final(out)@) == nesting(old(out)@) - 1,
        extends(old(out)@, final(out)@),
        pos == tokens@.len() ==> r is Err,
        pos < tokens@.len() && tokens@[pos as int].token_type is BlockEnd ==> r == Ok::<usize, Error>((pos + 1) as usize)
            && final(out)@ == old(out)@.push(Event { event_type: EventType::MappingEnd, position: tokens@[pos as int].start_position }),
    decreases tokens@.len() - pos, 4int,
{
    let mut cur = pos;
    loop
        invariant
            pos <= cur <= tokens@.len(),
            nesting(out@) == nesting(old(out)@),
            extends(old(out)@, out@),
            pos < tokens@.len() && tokens@[pos as int].token_type is BlockEnd ==> cur == pos && out@ == old(out)@,
            pos == tokens@.len() ==> cur == pos,
        decreases tokens@.len() - cur,
    {
        let t = match token_at(tokens, cur) {
            Ok(t) => t,
            Err(e) => return Err(e),
        };
        match &t.token_type {
            TokenType::Key => {
                let after = t.end_position;
                let p = parse_part(tokens, cur + 1, out, after, 0, true, true)?;
                cur = p;
                cur = parse_value_part(tokens, cur, out, 0, true)?;
            },
            TokenType::BlockEnd => {
                emit(out, Event::mapping_end(t.start_position));
                return Ok(cur + 1);
            },
            _ => {
                return Err(Error::parse(t.start_position, "expected a mapping key or the end of a block"));
            },
        }
    }
}

/// The value half of a mapping entry: `:` and its node, an empty scalar
/// after a bare `:`, or an empty scalar when there is no `:`.
fn parse_value_part(tokens: &[Token], pos: usize, out: &mut Vec<Event>, flow_closer: u8, block: bool)
    -> (r: Result<usize>)
    requires
        pos <= tokens@.len(),
    ensures
        r matches Ok(p) ==> pos <= p <= tokens@.len() && nesting(final(out)@) == nesting(old(out)@),
        extends(old(out)@, final(out)@),
        pos >= tokens@.len() || !(tokens@[pos as int].token_type is Value) ==> r == Ok::<usize, Error>(pos)
            && final(out)@.len() == old(out)@.len() + 1 && is_empty_scalar(
            final(out)@.last(),
            if pos < tokens@.len() {
                tokens@[pos as int].start_position
            } else {
                Position::spec_start()
            },
            None,
            None,
        ),
    decreases tokens@.len() - pos, 3int,
{
    if pos < tokens.len() {
        if let TokenType::Value = &tokens[pos].token_type {
            let after = tokens[pos].end_position;
            return parse_part(tokens, pos + 1, out, after, flow_closer, true, block);
        }
        let at = tokens[pos].start_position;
        emit(out, empty_scalar(at));
        Ok(pos)
    } else {
        emit(out, empty_scalar(Position::new()));
        Ok(pos)
    }
}

/// Entries of a flow sequence, after `[`, up to and including `]`. A
/// `key: value` entry is a single-pair mapping.
pub fn parse_flow_sequence(tokens: &[Token], pos: usize, out: &mut Vec<Event>) -> (r: Result<usize>)
    requires
        0 < pos <= tokens@.len(),
    ensures
        r matches Ok(p) ==> pos < p <= tokens@.len() && nesting(final(out)@) == nesting(old(out)@) - 1,
        extends(old(out)@, final(out)@),
        pos == tokens@.len() ==> r is Err,
        pos < tokens@.len() && tokens@[pos as int].token_type is FlowSequenceEnd ==> r == Ok::<usize, Error>((pos + 1) as usize)
            && final(out)@ == old(out)@.push(Event { event_type: EventType::SequenceEnd, position: tokens@[pos as int].start_position }),
    decreases tokens@.len() - pos, 4int,
{
    let mut cur = pos;
    let mut first = true;
    loop
        invariant
            pos <= cur <= tokens@.len(),
            nesting(out@) == nesting(old(out)@),
            extends(old(out)@, out@),
            pos < tokens@.len() && tokens@[pos as int].token_type is FlowSequenceEnd ==> cur == pos && out@ == old(out)@,
            pos == tokens@.len() ==> cur == pos,
        decreases tokens@.len() - cur,
    {
        let t = match token_at(tokens, cur) {
            Ok(t) => t,
            Err(e) => return Err(e),
        };
        if let TokenType::FlowSequenceEnd = &t.token_type {
            emit(out, Event::sequence_end(t.start_position));
            return Ok(cur + 1);
        }
        if !first {
            if let TokenType::FlowEntry = &t.token_type {
                cur = cur + 1;
            } else {
                return Err(Error::parse(t.start_position, "expected ',' or ']' in a flow sequence"));
            }
            let t2 = match token_at(tokens, cur) {
            Ok(t) => t,
            Err(e) => return Err(e),
        };
            if let TokenType::FlowSequenceEnd = &t2.token_type {
                emit(out, Event::sequence_end(t2.start_position));
                return Ok(cur + 1);
            }
        }
        let t3 = match token_at(tokens, cur) {
            Ok(t) => t,
            Err(e) => return Err(e),
        };
        if let TokenType::Key = &t3.token_type {
            emit(out, Event::mapping_start(t3.start_position, None, None, true));
            let after = t3.end_position;
            let p = parse_part(tokens, cur + 1, out, after, 1, true, false)?;
            let p2 = parse_value_part(tokens, p, out, 1, false)?;
            let at = if p2 < tokens.len() {
                tokens[p2].start_position
            } else {
                Position::new()
            };
            emit(out, Event::mapping_end(at));
            cur = p2;
        } else {
            let p = parse_node(tokens, cur, out, false, false)?;
            cur = p;
        }
        first = false;
    }
}

/// Entries of a flow mapping, after `{`, up to and including `}`.
pub fn parse_flow_mapping(tokens: &[Token], pos: usize, out: &mut Vec<Event>) -> (r: Result<usize>)
    requires
        0 < pos <= tokens@.len(),
    ensures
        r matches Ok(p) ==> pos < p <= tokens@.len() && nesting(final(out)@) == nesting(old(out)@) - 1,
        extends(old(out)@, final(out)@),
        pos == tokens@.len() ==> r is Err,
        pos < tokens@.len() && tokens@[pos as int].token_type is FlowMappingEnd ==> r == Ok::<usize, Error>((pos + 1) as usize)
            && final(out)@ == old(out)@.push(Event { event_type: EventType::MappingEnd, position: tokens@[pos as int].start_position }),
    decreases tokens@.len() - pos, 4int,
{
    let mut cur = pos;
    let mut first = true;
    loop
        invariant
            pos <= cur <= tokens@.len(),
            nesting(out@) == nesting(old(out)@),
            extends(old(out)@, out@),
            pos < tokens@.len() && tokens@[pos as int].token_type is FlowMappingEnd ==> cur == pos && out@ == old(out)@,
            pos == tokens@.len() ==> cur == pos,
        decreases tokens@.len() - cur,
    {
        let t = match token_at(tokens, cur) {
            Ok(t) => t,
            Err(e) => return Err(e),
        };
        if let TokenType::FlowMappingEnd = &t.token_type {
            emit(out, Event::mapping_end(t.start_position));
            return Ok(cur + 1);
        }
        if !first {
            if let TokenType::FlowEntry = &t.token_type {
                cur = cur + 1;
            } else {
                return Err(Error::parse(t.start_position, "expected ',' or '}' in a flow mapping"));
            }
            let t2 = match token_at(tokens, cur) {
            Ok(t) => t,
            Err(e) => return Err(e),
        };
            if let TokenType::FlowMappingEnd = &t2.token_type {
                emit(out, Event::mapping_end(t2.start_position));
                return Ok(cur + 1);
            }
        }
        let t3 = match token_at(tokens, cur) {
            Ok(t) => t,
            Err(e) => return Err(e),
        };
        if let TokenType::Key = &t3.token_type {
            let after = t3.end_position;
            let p = parse_part(tokens, cur + 1, out, after, 2, true, false)?;
            cur = parse_value_part(tokens, p, out, 2, false)?;
        } else {
            let p = parse_node(tokens, cur, out, false, false)?;
            cur = parse_value_part(tokens, p, out, 2, false)?;
        }
        first = false;
    }
}

/// A token is not a comment.
pub open spec fn not_comment(t: Token) -> bool {
    !(t.token_type is Comment)
}

/// The tokens that are not comments, in order.
pub open spec fn code_tokens(ts: Seq<Token>) -> Seq<Token> {
    ts.filter(|t: Token| not_comment(t))
}

/// A copy of a token.
fn copy_token(t: &Token) -> (r: Token)
    ensures
        r == *t,
{
    let token_type = match &t.token_type {
        TokenType::StreamStart => TokenType::StreamStart,
        TokenType::StreamEnd => TokenType::StreamEnd,
        TokenType::DocumentStart => TokenType::DocumentStart,
        TokenType::DocumentEnd => TokenType::DocumentEnd,
        TokenType::YamlDirective(a, b) => TokenType::YamlDirective(*a, *b),
        TokenType::TagDirective(h, p) => TokenType::TagDirective(h.clone(), p.clone()),
        TokenType::BlockSequenceStart => TokenType::BlockSequenceStart,
        TokenType::BlockMappingStart => TokenType::BlockMappingStart,
        TokenType::BlockEnd => TokenType::BlockEnd,
        TokenType::FlowSequenceStart => TokenType::FlowSequenceStart,
        TokenType::FlowSequenceEnd => TokenType::FlowSequenceEnd,
        TokenType::FlowMappingStart => TokenType::FlowMappingStart,
        TokenType::FlowMappingEnd => TokenType::FlowMappingEnd,
        TokenType::BlockEntry => TokenType::BlockEntry,
        TokenType::FlowEntry => TokenType::FlowEntry,
        TokenType::Key => TokenType::Key,
        TokenType::Value => TokenType::Value,
        TokenType::Scalar(v, q) => TokenType::Scalar(v.clone(), *q),
        TokenType::BlockScalarLiteral(v) => TokenType::BlockScalarLiteral(v.clone()),
        TokenType::BlockScalarFolded(v) => TokenType::BlockScalarFolded(v.clone()),
        TokenType::Alias(v) => TokenType::Alias(v.clone()),
        TokenType::Anchor(v) => TokenType::Anchor(v.clone()),
        TokenType::Tag(v) => TokenType::Tag(v.clone()),
        TokenType::Comment(v) => TokenType::Comment(v.clone()),
    };
    Token { token_type, start_position: t.start_position, end_position: t.end_position }
}

/// The tokens without comments.
pub fn without_comments(tokens: &[Token]) -> (r: Vec<Token>)
    ensures
        r@.len() <= tokens@.len(),
        r@ == code_tokens(tokens@),
{
    let mut r: Vec<Token> = Vec::new();
    let mut i: usize = 0;
    proof {
        assert(tokens@.subrange(0, 0) =~= Seq::<Token>::empty());
        reveal_with_fuel(Seq::<Token>::filter, 1);
    }
    while i < tokens.len()
        invariant
            i <= tokens@.len(),
            r@.len() <= i,
            r@ == tokens@.subrange(0, i as int).filter(|t: Token| not_comment(t)),
        decreases tokens@.len() - i,
    {
        proof {
            let pre = tokens@.subrange(0, i + 1);
            assert(pre.drop_last() =~= tokens@.subrange(0, i as int));
            assert(pre.last() == tokens@[i as int]);
            reveal_with_fuel(Seq::<Token>::filter, 1);
        }
        if !matches!(tokens[i].token_type, TokenType::Comment(_)) {
            r.push(copy_token(&tokens[i]));
        }
        i = i + 1;
    }
    proof {
        assert(tokens@.subrange(0, tokens@.len() as int) =~= tokens@);
    }
    r
}

/// Whether the token at `pos` is missing or ends a document's content:
/// a directive, a document marker or the stream end.
fn at_document_edge(tokens: &[Token], pos: usize) -> (b: bool)
    ensures
        !b ==> pos < tokens@.len(),
        b == at_document_edge_spec(tokens@, pos),
{
    if pos >= tokens.len() {
        return true;
    }
    match &tokens[pos].token_type {
        TokenType::YamlDirective(..) | TokenType::TagDirective(..) | TokenType::DocumentStart
        | TokenType::DocumentEnd | TokenType::StreamEnd => true,
        _ => false,
    }
}

/// The position of the token at `pos`, or the start when there is none.
fn position_of(tokens: &[Token], pos: usize) -> (p: Position)
    ensures
        p == if pos < tokens@.len() {
            tokens@[pos as int].start_position
        } else {
            Position::spec_start()
        },
{
    if pos < tokens.len() {
        tokens[pos].start_position
    } else {
        Position::new()
    }
}

/// The end of a document: an explicit `...` marker, or an implicit end at
/// the next token.
fn parse_document_end(tokens: &[Token], pos: usize, out: &mut Vec<Event>) -> (r: usize)
    requires
        pos <= tokens@.len(),
    ensures
        pos <= r <= tokens@.len(),
        nesting(final(out)@) == nesting(old(out)@),
        extends(old(out)@, final(out)@),
        if pos < tokens@.len() && tokens@[pos as int].token_type is DocumentEnd {
            r == pos + 1 && final(out)@ == old(out)@.push(
                Event { event_type: EventType::DocumentEnd { implicit: false }, position: tokens@[pos as int].start_position },
            )
        } else {
            r == pos && final(out)@.len() == old(out)@.len() + 1 && final(out)@.last().event_type
                == EventType::DocumentEnd { implicit: true }
        },
{
    if pos < tokens.len() && matches!(tokens[pos].token_type, TokenType::DocumentEnd) {
        emit(out, Event::document_end(tokens[pos].start_position, false));
        pos + 1
    } else {
        emit(out, Event::document_end(position_of(tokens, pos), true));
        pos
    }
}

/// The content of a document: its root node, or an empty scalar when the
/// document has none.
fn parse_document_content(tokens: &[Token], pos: usize, out: &mut Vec<Event>) -> (r: Result<usize>)
    requires
        pos <= tokens@.len(),
    ensures
        r matches Ok(p) ==> pos <= p <= tokens@.len() && nesting(final(out)@) == nesting(old(out)@),
        extends(old(out)@, final(out)@),
        at_document_edge_spec(tokens@, pos) ==> r == Ok::<usize, Error>(pos) && final(out)@.len() == old(out)@.len()
            + 1 && is_empty_scalar(
            final(out)@.last(),
            if pos < tokens@.len() {
                tokens@[pos as int].start_position
            } else {
                Position::spec_start()
            },
            None,
            None,
        ),
{
    if at_document_edge(tokens, pos) {
        emit(out, empty_scalar(position_of(tokens, pos)));
        Ok(pos)
    } else {
        parse_node(tokens, pos, out, true, false)
    }
}

/// Whether the tokens are a stream holding one scalar and nothing else.
pub open spec fn lone_scalar_tokens(ts: Seq<Token>) -> bool {
    &&& ts.len() == 3
    &&& ts[0].token_type is StreamStart
    &&& token_text(ts[1].token_type) is Some
    &&& ts[2].token_type is StreamEnd
}

/// The events of one implicit document whose root is a scalar of `text`
/// (`n` of them so far: the stream start, the document start, the scalar
/// and the implicit document end, in that order).
pub open spec fn scalar_document_prefix(events: Seq<Event>, text: String) -> bool {
    &&& events.len() == 4
    &&& events[0].event_type is StreamStart
    &&& events[1].event_type is DocumentStart
    &&& events[2].event_type matches EventType::Scalar { value, anchor, tag, .. } && value == text && anchor is None
        && tag is None
    &&& events[3].event_type == EventType::DocumentEnd { implicit: true }
}

/// Parse a token stream into events: the stream start, each document
/// (start, root node, end) and the stream end.
///
/// Comments are ignored. The result opens and closes as many collections
/// as it starts.
pub fn parse_events(all: &[Token]) -> (r: Result<Vec<Event>>)
    ensures
        ({
            let ts = code_tokens(all@);
            ts.len() == 2 && ts[0].token_type is StreamStart && ts[1].token_type is StreamEnd ==> (r matches Ok(events)
                && events@ == seq![
                Event { event_type: EventType::StreamStart, position: ts[0].start_position },
                Event { event_type: EventType::StreamEnd, position: ts[1].start_position },
            ])
        }),
        r matches Ok(events) ==> {
            &&& events@.len() >= 2
            &&& events@[0].event_type is StreamStart
            &&& events@.last().event_type is StreamEnd
            &&& nesting(events@) == 0
        },
        lone_scalar_tokens(code_tokens(all@)) ==> (r matches Ok(events) && events@.len() == 5
            && scalar_document_prefix(
            events@.drop_last(),
            token_text(code_tokens(all@)[1].token_type).unwrap(),
        )),
{
    let tokens = without_comments(all);
    let mut out: Vec<Event> = Vec::new();
    if tokens.len() == 0 || !matches!(tokens[0].token_type, TokenType::StreamStart) {
        return Err(Error::parse(Position::new(), "expected the start of the stream"));
    }
    emit(&mut out, Event::stream_start(tokens[0].start_position));
    proof {
        assert(nesting(seq![out@[0]].drop_last()) == 0);
    }
    let mut cur: usize = 1;
    let mut closed = false;
    if !at_document_edge(tokens.as_slice(), cur) {
        emit(&mut out, Event::document_start(tokens[cur].start_position, None, Vec::new(), true));
        cur = parse_node(tokens.as_slice(), cur, &mut out, true, false)?;
        let before = cur;
        cur = parse_document_end(tokens.as_slice(), cur, &mut out);
        closed = cur > before;
    }
    let ghost lone = lone_scalar_tokens(code_tokens(all@));
    let ghost text = token_text(code_tokens(all@)[1].token_type).unwrap();
    loop
        invariant
            lone == lone_scalar_tokens(code_tokens(all@)),
            lone ==> cur == 2 && scalar_document_prefix(out@, text) && text == token_text(
                code_tokens(all@)[1].token_type,
            ).unwrap(),
            1 <= cur <= tokens@.len(),
            out@.len() >= 1,
            out@[0].event_type is StreamStart,
            nesting(out@) == 0,
            tokens@ == code_tokens(all@),
            ({
                let ts = code_tokens(all@);
                ts.len() == 2 && ts[0].token_type is StreamStart && ts[1].token_type is StreamEnd ==> cur == 1
                    && out@ == seq![Event { event_type: EventType::StreamStart, position: ts[0].start_position }]
            }),
        decreases tokens@.len() - cur,
    {
        let ghost c0 = cur;
        while cur < tokens.len() && matches!(tokens[cur].token_type, TokenType::DocumentEnd)
            invariant
                c0 <= cur <= tokens@.len(),
                1 <= c0,
                tokens@ == code_tokens(all@),
                lone == lone_scalar_tokens(code_tokens(all@)),
                lone ==> cur == 2 && scalar_document_prefix(out@, text) && text == token_text(
                    code_tokens(all@)[1].token_type,
                ).unwrap(),
                ({
                    let ts = code_tokens(all@);
                    ts.len() == 2 && ts[0].token_type is StreamStart && ts[1].token_type is StreamEnd ==> cur == 1
                        && out@ == seq![Event { event_type: EventType::StreamStart, position: ts[0].start_position }]
                }),
            decreases tokens@.len() - cur,
        {
            cur = cur + 1;
            closed = true;
        }
        if cur >= tokens.len() {
            return Err(Error::parse(Position::new(), "expected the end of the stream"));
        }
        if matches!(tokens[cur].token_type, TokenType::StreamEnd) {
            emit(&mut out, Event::stream_end(tokens[cur].start_position));
            return Ok(out);
        }
        if closed && !at_document_edge(tokens.as_slice(), cur) {
            emit(&mut out, Event::document_start(tokens[cur].start_position, None, Vec::new(), true));
            cur = parse_node(tokens.as_slice(), cur, &mut out, true, false)?;
            let before = cur;
            cur = parse_document_end(tokens.as_slice(), cur, &mut out);
            closed = cur > before;
            continue;
        }
        let mut version: Option<(u8, u8)> = None;
        let mut tags: Vec<(String, String)> = Vec::new();
        loop
            invariant
                c0 <= cur <= tokens@.len(),
                1 <= c0,
                tokens@ == code_tokens(all@),
                ({
                    let ts = code_tokens(all@);
                    ts.len() == 2 && ts[0].token_type is StreamStart && ts[1].token_type is StreamEnd ==> cur == 1
                        && out@ == seq![Event { event_type: EventType::StreamStart, position: ts[0].start_position }]
                }),
            decreases tokens@.len() - cur,
        {
            if cur >= tokens.len() {
                break;
            }
            match &tokens[cur].token_type {
                TokenType::YamlDirective(major, minor) => {
                    if version.is_some() {
                        return Err(Error::parse(tokens[cur].start_position, "found a duplicate %YAML directive"));
                    }
                    version = Some((*major, *minor));
                },
                TokenType::TagDirective(handle, prefix) => {
                    tags.push((handle.clone(), prefix.clone()));
                },
                _ => {
                    break;
                },
            }
            cur = cur + 1;
        }
        if cur < tokens.len() && matches!(tokens[cur].token_type, TokenType::DocumentStart) {
            emit(&mut out, Event::document_start(tokens[cur].start_position, version, tags, false));
            cur = cur + 1;
            cur = parse_document_content(tokens.as_slice(), cur, &mut out)?;
        } else if (version.is_some() || tags.len() > 0) && !at_document_edge(tokens.as_slice(), cur) {
            // Directives followed directly by content open an implicit document.
            emit(&mut out, Event::document_start(tokens[cur].start_position, version, tags, true));
            cur = parse_node(tokens.as_slice(), cur, &mut out, true, false)?;
        } else {
            let at = position_of(tokens.as_slice(), cur);
            return Err(Error::parse(at, "expected a document start marker"));
        }
        let before = cur;
        cur = parse_document_end(tokens.as_slice(), cur, &mut out);
        closed = cur > before;
    }
}

} // verus!
