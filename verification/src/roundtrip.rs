//! Source-preserving, byte-for-byte round-trip documents.
//!
//! A [`RoundTripDocument`] keeps the original source text verbatim and
//! pairs it with a node-to-byte-span index built from the scanner's token
//! stream and the parser's event stream, so re-emitting an unmodified
//! document reproduces the input byte-for-byte, and an edit is a surgical
//! splice that replaces only the bytes of the addressed node.

use crate::error::{Error, Result};
use crate::parser::{Event, EventType, ScalarStyle};
use crate::position::Position;
use crate::scanner::{QuoteStyle, Token, TokenType};
use crate::scanner::tokenize::blank_rest;
use crate::scanner::scan::token_within;
use crate::parser::parse::code_tokens;
use crate::compose::{cdoc_at, cdoc_count, composed};
use crate::slicing::{lemma_encode_concat, lemma_encode_injective, lemma_boundary_by_byte, slice_str, is_continuation, str_is_char_boundary, str_byte_len};
use crate::text::{push_char, push_str, str_eq, usize_to_decimal, spec_decimal};
use crate::value::Value;
use std::collections::HashMap;
use vstd::prelude::*;
use vstd::string::StringSliceAdditionalSpecFns;
use vstd::utf8::{encode_utf8, encode_scalar, is_char_boundary, is_continuation_byte, valid_utf8};

verus! {

broadcast use vstd::std_specs::hash::group_hash_axioms;

/// A half-open byte range `[start, end)` into a document's source.
#[derive(Debug, Clone, Copy, PartialEq, Eq, Structural)]
pub struct Span {
    /// Inclusive start byte offset.
    pub start: usize,
    /// Exclusive end byte offset.
    pub end: usize,
}

impl Span {
    /// Create a span from start/end byte offsets.
    pub fn new(start: usize, end: usize) -> (s: Span)
        ensures
            s == (Span { start, end }),
    {
        Span { start, end }
    }

    /// Length of the span in bytes.
    pub fn len(&self) -> (n: usize)
        requires
            self.start <= self.end,
        ensures
            n == self.end - self.start,
    {
        self.end - self.start
    }

    /// Whether the span covers zero bytes.
    pub fn is_empty(&self) -> (b: bool)
        ensures
            b == (self.start == self.end),
    {
        self.start == self.end
    }
}

/// One step of a concrete path from the document root to a node.
#[derive(Debug, Clone, Copy, PartialEq, Eq)]
pub enum PathSegment<'a> {
    /// A mapping key, given as the key's resolved scalar text (unquoted,
    /// escapes decoded).
    Key(&'a str),
    /// A zero-based sequence index.
    Index(usize),
}

/// The structural span index of one document: mirrors the node tree but
/// stores source byte spans instead of typed values.
#[derive(Debug)]
pub enum SpanNode {
    /// A scalar; `span` is `None` for nodes the parser fabricated with no
    /// backing source bytes (such as the implicit null in `key:`).
    Scalar { span: Option<Span> },
    /// An alias reference; the span covers the `*name` bytes.
    Alias { span: Span },
    /// A sequence with per-item child nodes.
    Sequence { span: Option<Span>, children: Vec<SpanNode> },
    /// A mapping with per-entry `(key text, value node)` pairs in source
    /// order; the key text is `None` for complex (non-scalar) keys.
    Mapping { span: Option<Span>, entries: Vec<(Option<String>, SpanNode)> },
}

impl SpanNode {
    /// The byte span of a node, when it has source bytes of its own.
    pub open spec fn spec_span(self) -> Option<Span> {
        match self {
            SpanNode::Scalar { span } => span,
            SpanNode::Alias { span } => Some(span),
            SpanNode::Sequence { span, .. } => span,
            SpanNode::Mapping { span, .. } => span,
        }
    }

    /// The byte span of this node, when it has original source bytes.
    pub fn span(&self) -> (r: Option<Span>)
        ensures
            r == self.spec_span(),
    {
        match self {
            SpanNode::Scalar { span } => *span,
            SpanNode::Alias { span } => Some(*span),
            SpanNode::Sequence { span, .. } => *span,
            SpanNode::Mapping { span, .. } => *span,
        }
    }
}

/// A span lies within `bytes` and starts and ends on character boundaries.
pub open spec fn span_valid(s: Span, bytes: Seq<u8>) -> bool {
    &&& s.start <= s.end <= bytes.len()
    &&& is_char_boundary(bytes, s.start as int)
    &&& is_char_boundary(bytes, s.end as int)
}

/// An optional span is absent or valid.
pub open spec fn opt_span_valid(s: Option<Span>, bytes: Seq<u8>) -> bool {
    match s {
        Some(s) => span_valid(s, bytes),
        None => true,
    }
}

/// Every span in the tree rooted at `n` is valid for `bytes`.
pub open spec fn node_valid(n: SpanNode, bytes: Seq<u8>) -> bool
    decreases n,
{
    match n {
        SpanNode::Scalar { span } => opt_span_valid(span, bytes),
        SpanNode::Alias { span } => span_valid(span, bytes),
        SpanNode::Sequence { span, children } => opt_span_valid(span, bytes) && nodes_valid(
            children@,
            bytes,
        ),
        SpanNode::Mapping { span, entries } => opt_span_valid(span, bytes) && entries_valid(
            entries@,
            bytes,
        ),
    }
}

/// Every node of `ns` is valid for `bytes`.
pub open spec fn nodes_valid(ns: Seq<SpanNode>, bytes: Seq<u8>) -> bool
    decreases ns,
{
    if ns.len() == 0 {
        true
    } else {
        node_valid(ns[0], bytes) && nodes_valid(ns.drop_first(), bytes)
    }
}

/// Every entry value of `es` is valid for `bytes`.
pub open spec fn entries_valid(es: Seq<(Option<String>, SpanNode)>, bytes: Seq<u8>) -> bool
    decreases es,
{
    if es.len() == 0 {
        true
    } else {
        node_valid(es[0].1, bytes) && entries_valid(es.drop_first(), bytes)
    }
}

/// A valid node list holds valid nodes.
pub proof fn lemma_nodes_valid_index(ns: Seq<SpanNode>, bytes: Seq<u8>, i: int)
    requires
        nodes_valid(ns, bytes),
        0 <= i < ns.len(),
    ensures
        node_valid(ns[i], bytes),
    decreases i,
{
    if i > 0 {
        lemma_nodes_valid_index(ns.drop_first(), bytes, i - 1);
    }
}

/// A valid entry list holds valid entry values.
pub proof fn lemma_entries_valid_index(es: Seq<(Option<String>, SpanNode)>, bytes: Seq<u8>, i: int)
    requires
        entries_valid(es, bytes),
        0 <= i < es.len(),
    ensures
        node_valid(es[i].1, bytes),
    decreases i,
{
    if i > 0 {
        lemma_entries_valid_index(es.drop_first(), bytes, i - 1);
    }
}

/// Whether an entry's key text is the string `k`.
pub open spec fn entry_key_is(e: (Option<String>, SpanNode), k: Seq<char>) -> bool {
    match e.0 {
        Some(s) => s@ == k,
        None => false,
    }
}

/// The index of the last entry whose key text is `k` (the composed value
/// keeps the last occurrence of a duplicated key).
pub open spec fn last_key_index(entries: Seq<(Option<String>, SpanNode)>, k: Seq<char>) -> Option<
    int,
>
    decreases entries.len(),
{
    if entries.len() == 0 {
        None
    } else if entry_key_is(entries.last(), k) {
        Some(entries.len() - 1)
    } else {
        last_key_index(entries.drop_last(), k)
    }
}

/// The node one path segment below `n`, if any.
pub open spec fn step_spec(n: SpanNode, seg: PathSegment) -> Option<SpanNode> {
    match (seg, n) {
        (PathSegment::Key(k), SpanNode::Mapping { entries, .. }) => match last_key_index(
            entries@,
            k@,
        ) {
            Some(j) => Some(entries@[j].1),
            None => None,
        },
        (PathSegment::Index(i), SpanNode::Sequence { children, .. }) => if i < children@.len() {
            Some(children@[i as int])
        } else {
            None
        },
        _ => None,
    }
}

/// The node that `path` addresses below `n`, if it resolves.
pub open spec fn resolve_spec(n: SpanNode, path: Seq<PathSegment>) -> Option<SpanNode>
    decreases path.len(),
{
    if path.len() == 0 {
        Some(n)
    } else {
        match step_spec(n, path[0]) {
            Some(m) => resolve_spec(m, path.drop_first()),
            None => None,
        }
    }
}

/// The last-key search returns an in-range index whose key matches.
pub proof fn lemma_last_key_index(entries: Seq<(Option<String>, SpanNode)>, k: Seq<char>)
    ensures
        last_key_index(entries, k) matches Some(j) ==> 0 <= j < entries.len() && entry_key_is(
            entries[j],
            k,
        ),
    decreases entries.len(),
{
    if entries.len() > 0 && !entry_key_is(entries.last(), k) {
        lemma_last_key_index(entries.drop_last(), k);
    }
}

/// Resolving a path in a valid tree gives a valid subtree.
pub proof fn lemma_resolve_valid(n: SpanNode, path: Seq<PathSegment>, bytes: Seq<u8>)
    requires
        node_valid(n, bytes),
    ensures
        resolve_spec(n, path) matches Some(m) ==> node_valid(m, bytes),
    decreases path.len(),
{
    if path.len() > 0 {
        match (path[0], n) {
            (PathSegment::Key(k), SpanNode::Mapping { entries, .. }) => {
                lemma_last_key_index(entries@, k@);
                if let Some(j) = last_key_index(entries@, k@) {
                    lemma_entries_valid_index(entries@, bytes, j);
                    lemma_resolve_valid(entries@[j].1, path.drop_first(), bytes);
                }
            },
            (PathSegment::Index(i), SpanNode::Sequence { children, .. }) => {
                if i < children@.len() {
                    lemma_nodes_valid_index(children@, bytes, i as int);
                    lemma_resolve_valid(children@[i as int], path.drop_first(), bytes);
                }
            },
            _ => {},
        }
    }
}

/// One resolution step, as [`step_spec`] states it.
#[verifier::loop_isolation(false)]
fn step<'n>(node: &'n SpanNode, seg: &PathSegment) -> (r: Option<&'n SpanNode>)
    ensures
        match r {
            Some(m) => step_spec(*node, *seg) == Some(*m),
            None => step_spec(*node, *seg) is None,
        },
{
    match (seg, node) {
        (PathSegment::Key(k), SpanNode::Mapping { entries, .. }) => {
            let mut i = entries.len();
            proof {
                assert(entries@.subrange(0, i as int) =~= entries@);
            }
            while i > 0
                invariant
                    i <= entries@.len(),
                    last_key_index(entries@, k@) == last_key_index(
                        entries@.subrange(0, i as int),
                        k@,
                    ),
                decreases i,
            {
                let hit = match &entries[i - 1].0 {
                    Some(s) => str_eq(s.as_str(), k),
                    None => false,
                };
                proof {
                    let pre = entries@.subrange(0, i as int);
                    assert(pre.last() == entries@[i - 1]);
                    assert(pre.drop_last() =~= entries@.subrange(0, i - 1));
                }
                if hit {
                    return Some(&entries[i - 1].1);
                }
                i = i - 1;
            }
            None
        },
        (PathSegment::Index(i), SpanNode::Sequence { children, .. }) => {
            if *i < children.len() {
                Some(&children[*i])
            } else {
                None
            }
        },
        _ => None,
    }
}

/// Render a path for error messages, jq-style (`.a.b[0]`).
pub open spec fn spec_fmt_path(path: Seq<PathSegment>) -> Seq<char>
    decreases path.len(),
{
    if path.len() == 0 {
        seq!['.']
    } else {
        spec_fmt_segments(path)
    }
}

/// The rendering of each segment in turn: `.key` or `[index]`.
pub open spec fn spec_fmt_segments(path: Seq<PathSegment>) -> Seq<char>
    decreases path.len(),
{
    if path.len() == 0 {
        Seq::empty()
    } else {
        spec_fmt_segments(path.drop_last()) + match path.last() {
            PathSegment::Key(k) => seq!['.'] + k@,
            PathSegment::Index(i) => seq!['['] + spec_decimal(i as nat) + seq![']'],
        }
    }
}

/// Render a path for error messages, jq-style (`.a.b[0]`).
pub fn fmt_path(path: &[PathSegment]) -> (s: String)
    ensures
        s@ == spec_fmt_path(path@),
{
    if path.len() == 0 {
        let mut out = String::new();
        push_char(&mut out, '.');
        return out;
    }
    let mut out = String::new();
    let mut i: usize = 0;
    while i < path.len()
        invariant
            i <= path@.len(),
            out@ == spec_fmt_segments(path@.subrange(0, i as int)),
        decreases path@.len() - i,
    {
        proof {
            assert(path@.subrange(0, i + 1).drop_last() =~= path@.subrange(0, i as int));
        }
        match path[i] {
            PathSegment::Key(k) => {
                push_char(&mut out, '.');
                push_str(&mut out, k);
            },
            PathSegment::Index(n) => {
                push_char(&mut out, '[');
                let digits = usize_to_decimal(n);
                push_str(&mut out, digits.as_str());
                push_char(&mut out, ']');
            },
        }
        i = i + 1;
    }
    proof {
        assert(path@.subrange(0, path@.len() as int) =~= path@);
    }
    out
}

} // verus!

verus! {

/// What kind of source lexeme a span-bearing token is, used to match
/// parser events (which carry only a start position) back to their tokens.
#[derive(Debug, Clone, Copy, PartialEq, Eq, Structural)]
pub enum LexemeKind {
    /// Plain scalar.
    Plain,
    /// Single-quoted scalar.
    SingleQuoted,
    /// Double-quoted scalar.
    DoubleQuoted,
    /// Literal block scalar.
    Literal,
    /// Folded block scalar.
    Folded,
    /// Alias reference.
    Alias,
}

/// A span-bearing lexeme, keyed in [`LexemeIndex`] by its start offset.
#[derive(Debug)]
pub struct Lexeme {
    /// Exclusive end byte offset.
    pub end: usize,
    /// The token's text (scalar value or alias name).
    pub value: String,
    /// The lexeme's kind.
    pub kind: LexemeKind,
}

/// Index of scalar and alias tokens by start byte offset, with offsets
/// shifted by the BOM length so they index the original input.
pub struct LexemeIndex {
    /// Lexemes by start byte offset.
    pub by_start: HashMap<usize, Lexeme>,
}

/// The end of `bytes[start..end]` once trailing spaces and tabs are
/// trimmed.
pub open spec fn trim_ws_end(bytes: Seq<u8>, start: int, end: int) -> int
    decreases end - start,
{
    if end > start && (bytes[end - 1] == 32 || bytes[end - 1] == 9) {
        trim_ws_end(bytes, start, end - 1)
    } else {
        end
    }
}

/// Token offsets, shifted by `bom`, fit in `usize`; plain scalar tokens
/// also span an in-bounds, ordered range of `bytes`.
pub open spec fn lexeme_offsets_ok(tokens: Seq<Token>, bytes: Seq<u8>, bom: usize) -> bool {
    forall|i: int|
        0 <= i < tokens.len() ==> {
            &&& #[trigger] tokens[i].start_position.index + bom <= usize::MAX
            &&& tokens[i].end_position.index + bom <= usize::MAX
            &&& (tokens[i].token_type matches TokenType::Scalar(_, QuoteStyle::Plain) ==> {
                &&& tokens[i].start_position.index <= tokens[i].end_position.index
                &&& tokens[i].end_position.index + bom <= bytes.len()
            })
        }
}

/// The lexeme a token contributes, keyed by its shifted start offset.
pub open spec fn lexeme_entry(t: Token, bytes: Seq<u8>, bom: usize) -> Option<(usize, Lexeme)> {
    let start = (t.start_position.index + bom) as usize;
    let end = (t.end_position.index + bom) as usize;
    match t.token_type {
        TokenType::Scalar(v, style) => match style {
            QuoteStyle::Plain => Some(
                (
                    start,
                    Lexeme {
                        end: trim_ws_end(bytes, start as int, end as int) as usize,
                        value: v,
                        kind: LexemeKind::Plain,
                    },
                ),
            ),
            QuoteStyle::Single => Some(
                (start, Lexeme { end, value: v, kind: LexemeKind::SingleQuoted }),
            ),
            QuoteStyle::Double => Some(
                (start, Lexeme { end, value: v, kind: LexemeKind::DoubleQuoted }),
            ),
        },
        TokenType::BlockScalarLiteral(v) => Some(
            (start, Lexeme { end, value: v, kind: LexemeKind::Literal }),
        ),
        TokenType::BlockScalarFolded(v) => Some(
            (start, Lexeme { end, value: v, kind: LexemeKind::Folded }),
        ),
        TokenType::Alias(v) => Some((start, Lexeme { end, value: v, kind: LexemeKind::Alias })),
        _ => None,
    }
}

/// The lexeme index of `tokens`: each span-bearing token in order, a later
/// token at the same start replacing an earlier one.
pub open spec fn lexemes_spec(tokens: Seq<Token>, bytes: Seq<u8>, bom: usize) -> Map<usize, Lexeme>
    decreases tokens.len(),
{
    if tokens.len() == 0 {
        Map::empty()
    } else {
        let m = lexemes_spec(tokens.drop_last(), bytes, bom);
        match lexeme_entry(tokens.last(), bytes, bom) {
            Some((k, l)) => m.insert(k, l),
            None => m,
        }
    }
}

/// Whether a lexeme kind is the token form of a scalar style.
pub open spec fn style_matches(kind: LexemeKind, style: ScalarStyle) -> bool {
    match (kind, style) {
        (LexemeKind::Plain, ScalarStyle::Plain) => true,
        (LexemeKind::SingleQuoted, ScalarStyle::SingleQuoted) => true,
        (LexemeKind::DoubleQuoted, ScalarStyle::DoubleQuoted) => true,
        (LexemeKind::Literal, ScalarStyle::Literal) => true,
        (LexemeKind::Folded, ScalarStyle::Folded) => true,
        _ => false,
    }
}

/// The span of the scalar lexeme at `start`, when its kind and text match.
pub open spec fn scalar_span_spec(
    m: Map<usize, Lexeme>,
    start: usize,
    value: Seq<char>,
    style: ScalarStyle,
) -> Option<Span> {
    if m.contains_key(start) && style_matches(m[start].kind, style) && m[start].value@ == value {
        Some(Span { start, end: m[start].end })
    } else {
        None
    }
}

/// The span of the alias lexeme at `start`, when its name matches.
pub open spec fn alias_span_spec(m: Map<usize, Lexeme>, start: usize, name: Seq<char>) -> Option<
    Span,
> {
    if m.contains_key(start) && m[start].kind == LexemeKind::Alias && m[start].value@ == name {
        Some(Span { start, end: m[start].end })
    } else {
        None
    }
}

/// Trim trailing spaces and tabs from `bytes[start..end]`, giving the new
/// end.
fn trim_ws_end_exec(bytes: &[u8], start: usize, end: usize) -> (r: usize)
    requires
        start <= end <= bytes@.len(),
    ensures
        r == trim_ws_end(bytes@, start as int, end as int),
        start <= r <= end,
{
    let mut e = end;
    while e > start && (bytes[e - 1] == 32 || bytes[e - 1] == 9)
        invariant
            start <= e <= end <= bytes@.len(),
            trim_ws_end(bytes@, start as int, e as int) == trim_ws_end(
                bytes@,
                start as int,
                end as int,
            ),
        decreases e,
    {
        e = e - 1;
    }
    e
}

impl LexemeIndex {
    /// Index the scalar and alias tokens of `tokens` by their start offset
    /// into `original`; plain-scalar spans exclude trailing spaces and
    /// tabs, so a splice cannot swallow the padding before a comment.
    pub fn build(tokens: &[Token], original: &str, bom_len: usize) -> (r: LexemeIndex)
        requires
            lexeme_offsets_ok(tokens@, original.spec_bytes(), bom_len),
        ensures
            r.by_start@ == lexemes_spec(tokens@, original.spec_bytes(), bom_len),
    {
        let bytes = original.as_bytes();
        let mut by_start: HashMap<usize, Lexeme> = HashMap::new();
        let mut i: usize = 0;
        while i < tokens.len()
            invariant
                bytes@ == original.spec_bytes(),
                lexeme_offsets_ok(tokens@, bytes@, bom_len),
                i <= tokens@.len(),
                by_start@ == lexemes_spec(tokens@.subrange(0, i as int), bytes@, bom_len),
            decreases tokens@.len() - i,
        {
            let token = &tokens[i];
            proof {
                assert(tokens@.subrange(0, i + 1).drop_last() =~= tokens@.subrange(0, i as int));
                assert(tokens@.subrange(0, i + 1).last() == tokens@[i as int]);
                assert(tokens@[i as int].start_position.index + bom_len <= usize::MAX);
            }
            let start = token.start_position.index + bom_len;
            let end = token.end_position.index + bom_len;
            match &token.token_type {
                TokenType::Scalar(v, style) => {
                    match style {
                        QuoteStyle::Plain => {
                            let e = trim_ws_end_exec(bytes, start, end);
                            by_start.insert(
                                start,
                                Lexeme { end: e, value: v.clone(), kind: LexemeKind::Plain },
                            );
                        },
                        QuoteStyle::Single => {
                            by_start.insert(
                                start,
                                Lexeme { end, value: v.clone(), kind: LexemeKind::SingleQuoted },
                            );
                        },
                        QuoteStyle::Double => {
                            by_start.insert(
                                start,
                                Lexeme { end, value: v.clone(), kind: LexemeKind::DoubleQuoted },
                            );
                        },
                    }
                },
                TokenType::BlockScalarLiteral(v) => {
                    by_start.insert(
                        start,
                        Lexeme { end, value: v.clone(), kind: LexemeKind::Literal },
                    );
                },
                TokenType::BlockScalarFolded(v) => {
                    by_start.insert(
                        start,
                        Lexeme { end, value: v.clone(), kind: LexemeKind::Folded },
                    );
                },
                TokenType::Alias(v) => {
                    by_start.insert(start, Lexeme { end, value: v.clone(), kind: LexemeKind::Alias });
                },
                _ => {},
            }
            i = i + 1;
        }
        proof {
            assert(tokens@.subrange(0, tokens@.len() as int) =~= tokens@);
        }
        LexemeIndex { by_start }
    }

    /// Match a scalar event back to its token span; `None` for fabricated
    /// events (implicit nulls) whose position points at some other token.
    pub fn scalar_span(&self, start: usize, value: &str, style: ScalarStyle) -> (r: Option<Span>)
        ensures
            r == scalar_span_spec(self.by_start@, start, value@, style),
    {
        match self.by_start.get(&start) {
            Some(lexeme) => {
                let style_ok = match (lexeme.kind, style) {
                    (LexemeKind::Plain, ScalarStyle::Plain) => true,
                    (LexemeKind::SingleQuoted, ScalarStyle::SingleQuoted) => true,
                    (LexemeKind::DoubleQuoted, ScalarStyle::DoubleQuoted) => true,
                    (LexemeKind::Literal, ScalarStyle::Literal) => true,
                    (LexemeKind::Folded, ScalarStyle::Folded) => true,
                    _ => false,
                };
                if !style_ok || !str_eq(lexeme.value.as_str(), value) {
                    None
                } else {
                    Some(Span::new(start, lexeme.end))
                }
            },
            None => None,
        }
    }

    /// Match an alias event back to its `*name` token span.
    pub fn alias_span(&self, start: usize, name: &str) -> (r: Option<Span>)
        ensures
            r == alias_span_spec(self.by_start@, start, name@),
    {
        match self.by_start.get(&start) {
            Some(lexeme) => {
                let is_alias = match lexeme.kind {
                    LexemeKind::Alias => true,
                    _ => false,
                };
                if !is_alias || !str_eq(lexeme.value.as_str(), name) {
                    None
                } else {
                    Some(Span::new(start, lexeme.end))
                }
            },
            None => None,
        }
    }
}

} // verus!

verus! {

/// The state of the document-boundary scan after some tokens.
pub struct BoundaryScan {
    /// Start offsets found so far.
    pub boundaries: Seq<usize>,
    /// A `---` opened a document that has not been closed.
    pub has_open_doc: bool,
    /// Content appeared since the last document marker.
    pub content_seen: bool,
    /// A `...` closed the last document.
    pub doc_closed: bool,
}

/// Every token offset, shifted by `bom`, fits in `usize`.
pub open spec fn starts_fit(tokens: Seq<Token>, bom: usize) -> bool {
    forall|i: int| 0 <= i < tokens.len() ==> #[trigger] tokens[i].start_position.index + bom <= usize::MAX
}

/// One step of the boundary scan: a `---` after an open document, content
/// or a closed document starts a new document at the marker; content after
/// a `...` starts one at the content; comments and directives are trivia.
pub open spec fn boundary_step(st: BoundaryScan, t: Token, bom: usize) -> BoundaryScan {
    let start = (t.start_position.index + bom) as usize;
    match t.token_type {
        TokenType::StreamStart | TokenType::StreamEnd => st,
        TokenType::DocumentStart => BoundaryScan {
            boundaries: if st.has_open_doc || st.content_seen || st.doc_closed {
                st.boundaries.push(start)
            } else {
                st.boundaries
            },
            has_open_doc: true,
            content_seen: false,
            doc_closed: false,
        },
        TokenType::DocumentEnd => BoundaryScan {
            boundaries: st.boundaries,
            has_open_doc: false,
            content_seen: false,
            doc_closed: true,
        },
        TokenType::Comment(_) | TokenType::YamlDirective(..) | TokenType::TagDirective(..) => st,
        _ => BoundaryScan {
            boundaries: if st.doc_closed {
                st.boundaries.push(start)
            } else {
                st.boundaries
            },
            has_open_doc: st.has_open_doc,
            content_seen: true,
            doc_closed: false,
        },
    }
}

/// The boundary scan over `tokens`, starting from a first document at 0.
pub open spec fn boundary_scan(tokens: Seq<Token>, bom: usize) -> BoundaryScan
    decreases tokens.len(),
{
    if tokens.len() == 0 {
        BoundaryScan {
            boundaries: seq![0usize],
            has_open_doc: false,
            content_seen: false,
            doc_closed: false,
        }
    } else {
        boundary_step(boundary_scan(tokens.drop_last(), bom), tokens.last(), bom)
    }
}

/// `s` with runs of equal adjacent elements collapsed to one.
pub open spec fn dedup_seq(s: Seq<usize>) -> Seq<usize>
    decreases s.len(),
{
    if s.len() == 0 {
        s
    } else {
        let d = dedup_seq(s.drop_last());
        if d.len() > 0 && d.last() == s.last() {
            d
        } else {
            d.push(s.last())
        }
    }
}

/// Each document's starting byte offset in the original input: the
/// boundary scan's offsets that lie within the input, adjacent repeats
/// dropped.
pub open spec fn document_boundaries_spec(tokens: Seq<Token>, bom: usize, input_len: usize) -> Seq<
    usize,
> {
    dedup_seq(boundary_scan(tokens, bom).boundaries.filter(|b: usize| b <= input_len))
}

/// The boundary scan keeps the first document's start, 0, in front.
proof fn lemma_boundary_scan_first(tokens: Seq<Token>, bom: usize)
    ensures
        boundary_scan(tokens, bom).boundaries.len() >= 1,
        boundary_scan(tokens, bom).boundaries[0] == 0,
    decreases tokens.len(),
{
    if tokens.len() > 0 {
        lemma_boundary_scan_first(tokens.drop_last(), bom);
    }
}

/// Filtering keeps a first element that passes.
proof fn lemma_filter_first(s: Seq<usize>, bound: usize)
    requires
        s.len() >= 1,
        s[0] <= bound,
    ensures
        s.filter(|b: usize| b <= bound).len() >= 1,
        s.filter(|b: usize| b <= bound)[0] == s[0],
    decreases s.len(),
{
    reveal(Seq::filter);
    if s.len() > 1 {
        lemma_filter_first(s.drop_last(), bound);
    } else {
        assert(s.drop_last().filter(|b: usize| b <= bound) =~= Seq::<usize>::empty());
    }
}

/// Collapsing repeats keeps the first element, and keeps only elements
/// that were there.
proof fn lemma_dedup_first(s: Seq<usize>)
    ensures
        s.len() >= 1 ==> dedup_seq(s).len() >= 1 && dedup_seq(s)[0] == s[0],
        forall|k: int| 0 <= k < dedup_seq(s).len() ==> s.contains(#[trigger] dedup_seq(s)[k]),
    decreases s.len(),
{
    if s.len() > 0 {
        lemma_dedup_first(s.drop_last());
        let d = dedup_seq(s.drop_last());
        assert forall|k: int| 0 <= k < dedup_seq(s).len() implies s.contains(#[trigger] dedup_seq(s)[k]) by {
            if k < d.len() {
                let m = choose|m: int| 0 <= m < s.drop_last().len() && s.drop_last()[m] == d[k];
                assert(s[m] == d[k]);
            } else {
                assert(s[s.len() - 1] == s.last());
            }
        }
    }
}

/// The first document starts at byte 0, and every document starts within
/// the input.
pub proof fn lemma_document_boundaries(tokens: Seq<Token>, bom: usize, input_len: usize)
    ensures
        document_boundaries_spec(tokens, bom, input_len).len() >= 1,
        document_boundaries_spec(tokens, bom, input_len)[0] == 0,
        forall|k: int|
            0 <= k < document_boundaries_spec(tokens, bom, input_len).len() ==> #[trigger] document_boundaries_spec(
                tokens,
                bom,
                input_len,
            )[k] <= input_len,
{
    let raw = boundary_scan(tokens, bom).boundaries;
    let f = raw.filter(|b: usize| b <= input_len);
    lemma_boundary_scan_first(tokens, bom);
    lemma_filter_first(raw, input_len);
    lemma_dedup_first(f);
    assert forall|k: int| 0 <= k < dedup_seq(f).len() implies #[trigger] dedup_seq(f)[k] <= input_len by {
        let m = choose|m: int| 0 <= m < f.len() && f[m] == dedup_seq(f)[k];
        raw.lemma_filter_pred(|b: usize| b <= input_len, m);
    }
}

/// Compute each document's starting byte offset in the original input.
///
/// The first document always starts at byte 0 (owning any leading BOM,
/// comments, and directives). A later document starts at its `---` marker,
/// or, after an explicit `...` terminator, at its first content token.
pub fn document_boundaries(tokens: &[Token], bom_len: usize, input_len: usize) -> (r: Vec<usize>)
    requires
        starts_fit(tokens@, bom_len),
    ensures
        r@ == document_boundaries_spec(tokens@, bom_len, input_len),
        r@.len() >= 1,
        r@[0] == 0,
        forall|k: int| 0 <= k < r@.len() ==> #[trigger] r@[k] <= input_len,
{
    proof {
        lemma_document_boundaries(tokens@, bom_len, input_len);
    }
    let mut boundaries: Vec<usize> = Vec::new();
    boundaries.push(0);
    let mut has_open_doc = false;
    let mut content_seen = false;
    let mut doc_closed = false;
    let mut i: usize = 0;
    while i < tokens.len()
        invariant
            starts_fit(tokens@, bom_len),
            i <= tokens@.len(),
            boundary_scan(tokens@.subrange(0, i as int), bom_len) == (BoundaryScan {
                boundaries: boundaries@,
                has_open_doc,
                content_seen,
                doc_closed,
            }),
        decreases tokens@.len() - i,
    {
        proof {
            assert(tokens@.subrange(0, i + 1).drop_last() =~= tokens@.subrange(0, i as int));
            assert(tokens@.subrange(0, i + 1).last() == tokens@[i as int]);
            assert(tokens@[i as int].start_position.index + bom_len <= usize::MAX);
        }
        let token = &tokens[i];
        let start = token.start_position.index + bom_len;
        match &token.token_type {
            TokenType::StreamStart | TokenType::StreamEnd => {},
            TokenType::DocumentStart => {
                if has_open_doc || content_seen || doc_closed {
                    boundaries.push(start);
                }
                has_open_doc = true;
                content_seen = false;
                doc_closed = false;
            },
            TokenType::DocumentEnd => {
                has_open_doc = false;
                content_seen = false;
                doc_closed = true;
            },
            TokenType::Comment(_) | TokenType::YamlDirective(..) | TokenType::TagDirective(..) => {},
            _ => {
                if doc_closed {
                    boundaries.push(start);
                    doc_closed = false;
                }
                content_seen = true;
            },
        }
        i = i + 1;
    }
    proof {
        assert(tokens@.subrange(0, tokens@.len() as int) =~= tokens@);
    }
    let ghost scanned = boundaries@;
    // Keep the offsets that lie within the input.
    let mut kept: Vec<usize> = Vec::new();
    let mut j: usize = 0;
    while j < boundaries.len()
        invariant
            boundaries@ == scanned,
            j <= scanned.len(),
            kept@ == scanned.subrange(0, j as int).filter(|b: usize| b <= input_len),
        decreases scanned.len() - j,
    {
        proof {
            let pre = scanned.subrange(0, j + 1);
            assert(pre.drop_last() =~= scanned.subrange(0, j as int));
            assert(pre.last() == scanned[j as int]);
            reveal_with_fuel(Seq::<usize>::filter, 1);
        }
        if boundaries[j] <= input_len {
            kept.push(boundaries[j]);
        }
        j = j + 1;
    }
    proof {
        assert(scanned.subrange(0, scanned.len() as int) =~= scanned);
    }
    let ghost filtered = kept@;
    // Collapse adjacent repeats.
    let mut out: Vec<usize> = Vec::new();
    let mut k: usize = 0;
    while k < kept.len()
        invariant
            kept@ == filtered,
            k <= filtered.len(),
            out@ == dedup_seq(filtered.subrange(0, k as int)),
        decreases filtered.len() - k,
    {
        proof {
            let pre = filtered.subrange(0, k + 1);
            assert(pre.drop_last() =~= filtered.subrange(0, k as int));
            assert(pre.last() == filtered[k as int]);
        }
        let b = kept[k];
        if out.len() > 0 && out[out.len() - 1] == b {
        } else {
            out.push(b);
        }
        k = k + 1;
    }
    proof {
        assert(filtered.subrange(0, filtered.len() as int) =~= filtered);
    }
    out
}

} // verus!

verus! {

/// Every event offset, shifted by `bom`, is below `usize::MAX` (so the
/// byte after it can be named).
pub open spec fn events_fit(events: Seq<Event>, bom: usize) -> bool {
    forall|i: int| 0 <= i < events.len() ==> #[trigger] events[i].position.index + bom < usize::MAX
}

/// A forward cursor over the parsed event stream.
pub struct Cursor<'a> {
    /// The events.
    pub events: &'a [Event],
    /// The index of the next event.
    pub pos: usize,
}

/// Whether an event terminates the enclosing structure without belonging
/// to it (a document boundary or the end of the stream).
pub open spec fn is_boundary_event(e: Event) -> bool {
    e.event_type is DocumentStart || e.event_type is DocumentEnd || e.event_type is StreamEnd
}

impl<'a> Cursor<'a> {
    /// The next event, if any.
    pub fn peek(&self) -> (r: Option<&'a Event>)
        ensures
            r == (if self.pos < self.events@.len() {
                Some(&self.events@[self.pos as int])
            } else {
                None::<&Event>
            }),
    {
        if self.pos < self.events.len() {
            Some(&self.events[self.pos])
        } else {
            None
        }
    }

    /// Take the next event, if any.
    pub fn advance(&mut self) -> (r: Option<&'a Event>)
        ensures
            final(self).events == old(self).events,
            old(self).pos < old(self).events@.len() ==> final(self).pos == old(self).pos + 1 && r
                == Some(&old(self).events@[old(self).pos as int]),
            old(self).pos >= old(self).events@.len() ==> final(self).pos == old(self).pos && r
                is None,
    {
        if self.pos < self.events.len() {
            let e = &self.events[self.pos];
            self.pos = self.pos + 1;
            Some(e)
        } else {
            None
        }
    }

    /// Whether the next event is missing or is a document boundary or the
    /// end of the stream.
    pub fn at_boundary(&self) -> (b: bool)
        ensures
            b == (self.pos >= self.events@.len() || is_boundary_event(
                self.events@[self.pos as int],
            )),
    {
        match self.peek() {
            None => true,
            Some(e) => match &e.event_type {
                EventType::DocumentStart { .. } | EventType::DocumentEnd { .. }
                | EventType::StreamEnd => true,
                _ => false,
            },
        }
    }

    /// Whether the next event is a sequence end.
    fn at_sequence_end(&self) -> (b: bool)
        ensures
            b == (self.pos < self.events@.len() && self.events@[self.pos as int].event_type is SequenceEnd),
    {
        match self.peek() {
            Some(e) => match &e.event_type {
                EventType::SequenceEnd => true,
                _ => false,
            },
            None => false,
        }
    }

    /// Whether the next event is a mapping end.
    fn at_mapping_end(&self) -> (b: bool)
        ensures
            b == (self.pos < self.events@.len() && self.events@[self.pos as int].event_type is MappingEnd),
    {
        match self.peek() {
            Some(e) => match &e.event_type {
                EventType::MappingEnd => true,
                _ => false,
            },
            None => false,
        }
    }
}

/// The larger of two optional offsets (an absent one does not count).
pub open spec fn max_opt(a: Option<usize>, b: Option<usize>) -> Option<usize> {
    match (a, b) {
        (Some(x), Some(y)) => Some(if x >= y { x } else { y }),
        (Some(x), None) => Some(x),
        (None, y) => y,
    }
}

/// The end of a node's span, if it has one.
pub open spec fn span_end(n: SpanNode) -> Option<usize> {
    match n.spec_span() {
        Some(s) => Some(s.end),
        None => None,
    }
}

/// The largest span end among `ns`.
pub open spec fn nodes_max_end(ns: Seq<SpanNode>) -> Option<usize>
    decreases ns.len(),
{
    if ns.len() == 0 {
        None
    } else {
        max_opt(nodes_max_end(ns.drop_last()), span_end(ns.last()))
    }
}

/// The largest span end among the values of `es`.
pub open spec fn entries_max_end(es: Seq<(Option<String>, SpanNode)>) -> Option<usize>
    decreases es.len(),
{
    if es.len() == 0 {
        None
    } else {
        max_opt(entries_max_end(es.drop_last()), span_end(es.last().1))
    }
}

fn max_opt_exec(a: Option<usize>, b: Option<usize>) -> (r: Option<usize>)
    ensures
        r == max_opt(a, b),
{
    match (a, b) {
        (Some(x), Some(y)) => Some(if x >= y { x } else { y }),
        (Some(x), None) => Some(x),
        (None, y) => y,
    }
}

fn end_of(n: &SpanNode) -> (r: Option<usize>)
    ensures
        r == span_end(*n),
{
    match n.span() {
        Some(s) => Some(s.end),
        None => None,
    }
}

/// The largest span end among `ns`.
fn max_span_end(ns: &[SpanNode]) -> (r: Option<usize>)
    ensures
        r == nodes_max_end(ns@),
{
    let mut best: Option<usize> = None;
    let mut i: usize = 0;
    while i < ns.len()
        invariant
            i <= ns@.len(),
            best == nodes_max_end(ns@.subrange(0, i as int)),
        decreases ns@.len() - i,
    {
        proof {
            let pre = ns@.subrange(0, i + 1);
            assert(pre.drop_last() =~= ns@.subrange(0, i as int));
            assert(pre.last() == ns@[i as int]);
        }
        best = max_opt_exec(best, end_of(&ns[i]));
        i = i + 1;
    }
    proof {
        assert(ns@.subrange(0, ns@.len() as int) =~= ns@);
    }
    best
}

/// The largest span end among the values of `es`.
fn max_entry_end(es: &[(Option<String>, SpanNode)]) -> (r: Option<usize>)
    ensures
        r == entries_max_end(es@),
{
    let mut best: Option<usize> = None;
    let mut i: usize = 0;
    while i < es.len()
        invariant
            i <= es@.len(),
            best == entries_max_end(es@.subrange(0, i as int)),
        decreases es@.len() - i,
    {
        proof {
            let pre = es@.subrange(0, i + 1);
            assert(pre.drop_last() =~= es@.subrange(0, i as int));
            assert(pre.last() == es@[i as int]);
        }
        best = max_opt_exec(best, end_of(&es[i].1));
        i = i + 1;
    }
    proof {
        assert(es@.subrange(0, es@.len() as int) =~= es@);
    }
    best
}

/// Where a collection's span ends: a flow collection at the byte after its
/// one-byte closing bracket, a block collection at the last spanned byte of
/// its children.
pub open spec fn collection_end_spec(flow_style: bool, closer: Option<usize>, children_end: Option<
    usize,
>) -> Option<usize> {
    if flow_style {
        match closer {
            Some(p) => Some((p + 1) as usize),
            None => None,
        }
    } else {
        children_end
    }
}

/// Compute where a collection's span ends: flow collections end at their
/// one-byte closing bracket (whose start the end event carries); block
/// collections extend to the last spanned byte of any child node.
pub fn collection_end(flow_style: bool, closer: Option<usize>, children_end: Option<usize>) -> (r:
    Option<usize>)
    requires
        closer matches Some(p) ==> p < usize::MAX,
    ensures
        r == collection_end_spec(flow_style, closer, children_end),
{
    if flow_style {
        match closer {
            Some(p) => Some(p + 1),
            None => None,
        }
    } else {
        children_end
    }
}

/// Build the span node for a collection from its start and end.
fn collection_span(start: usize, end: Option<usize>) -> (r: Option<Span>)
    ensures
        r == (match end {
            Some(e) => Some(Span { start, end: e }),
            None => None,
        }),
{
    match end {
        Some(e) => Some(Span::new(start, e)),
        None => None,
    }
}

/// The span from `start` to an optional end.
pub open spec fn span_from(start: usize, end: Option<usize>) -> Option<Span> {
    match end {
        Some(e) => Some(Span { start, end: e }),
        None => None,
    }
}

/// A flow collection's span `sp` runs from `start` to just past the
/// bracket of the collection end event read last (a mapping end when
/// `mapping`, else a sequence end).
pub open spec fn closed_by(events: Seq<Event>, pos: usize, bom_len: usize, sp: Span, start: usize, mapping: bool) -> bool {
    &&& sp.start == start
    &&& 1 <= pos <= events.len()
    &&& if mapping {
        events[pos - 1].event_type is MappingEnd
    } else {
        events[pos - 1].event_type is SequenceEnd
    }
    &&& sp.end == events[pos - 1].position.index + bom_len + 1
}

/// Whether an event begins a node: a scalar, an alias or a collection.
pub open spec fn begins_node(e: Event) -> bool {
    e.event_type is Scalar || e.event_type is Alias || e.event_type is SequenceStart
        || e.event_type is MappingStart
}

/// The byte offset of event `p` in the input, past a leading mark of
/// `bom` bytes.
pub open spec fn event_offset(events: Seq<Event>, p: int, bom: usize) -> usize {
    (events[p].position.index + bom) as usize
}

/// Where the walk of the node at event `p` stops: just past a scalar, an
/// alias or any event that begins no node, and past the items of a
/// collection (and its end event, when the walk reached one).
pub open spec fn walk_end(events: Seq<Event>, p: int) -> int
    decreases events.len() - p, 0int,
{
    if p < 0 || p >= events.len() {
        p
    } else {
        match events[p].event_type {
            EventType::SequenceStart { .. } => seq_scan(events, p + 1).0,
            EventType::MappingStart { .. } => map_scan(events, p + 1).0,
            _ => p + 1,
        }
    }
}

/// Walking the items of a sequence from event `q`: where the walk
/// stops, whether it stopped by reading the sequence's end, and how many
/// items it walked. A document boundary or the end of the events stops
/// it without being read; an event that begins no node is read and stops
/// it.
pub open spec fn seq_scan(events: Seq<Event>, q: int) -> (int, bool, nat)
    decreases events.len() - q, 1int,
{
    if q < 0 || q >= events.len() {
        (q, false, 0)
    } else if events[q].event_type is SequenceEnd {
        (q + 1, true, 0)
    } else if is_boundary_event(events[q]) {
        (q, false, 0)
    } else if !begins_node(events[q]) {
        (q + 1, false, 0)
    } else {
        let w = walk_end(events, q);
        if q < w <= events.len() {
            let r = seq_scan(events, w);
            (r.0, r.1, r.2 + 1)
        } else {
            (q, false, 0)
        }
    }
}

/// Where the value of a mapping entry whose key ended at `k` stops: at
/// `k` itself when a boundary, the mapping's end or the end of the events
/// follows the key (the value is an implicit null), else where its walk
/// stops.
pub open spec fn value_end(events: Seq<Event>, k: int) -> int
    decreases events.len() - k, 0int,
{
    if k < 0 || k >= events.len() || is_boundary_event(events[k]) || events[k].event_type is MappingEnd {
        k
    } else {
        walk_end(events, k)
    }
}

/// Walking the entries of a mapping from event `q`, as [`seq_scan`]
/// walks items: each entry is a key node and, unless a boundary or the
/// mapping's end follows it, a value node.
pub open spec fn map_scan(events: Seq<Event>, q: int) -> (int, bool, nat)
    decreases events.len() - q, 1int,
{
    if q < 0 || q >= events.len() {
        (q, false, 0)
    } else if events[q].event_type is MappingEnd {
        (q + 1, true, 0)
    } else if is_boundary_event(events[q]) {
        (q, false, 0)
    } else if !begins_node(events[q]) {
        (q + 1, false, 0)
    } else {
        let k = walk_end(events, q);
        if q < k <= events.len() {
            let v = if k >= events.len() || is_boundary_event(events[k]) || events[k].event_type is MappingEnd {
                k
            } else {
                walk_end(events, k)
            };
            if k <= v <= events.len() {
                let r = map_scan(events, v);
                (r.0, r.1, r.2 + 1)
            } else {
                (q, false, 0)
            }
        } else {
            (q, false, 0)
        }
    }
}

/// The event at which item `i` of a sequence whose items start at `q`
/// begins.
pub open spec fn item_start(events: Seq<Event>, q: int, i: nat) -> int
    decreases i,
{
    if i == 0 {
        q
    } else {
        walk_end(events, item_start(events, q, (i - 1) as nat))
    }
}

/// The event at which the key of entry `i` of a mapping whose entries
/// start at `q` begins.
pub open spec fn key_start(events: Seq<Event>, q: int, i: nat) -> int
    decreases i,
{
    if i == 0 {
        q
    } else {
        value_end(events, walk_end(events, key_start(events, q, (i - 1) as nat)))
    }
}

/// The span a collection walked from event `p` gets: from its start
/// event to the end that [`collection_end_spec`] gives, with the closing
/// event read when the scan `sc` says so.
pub open spec fn scanned_span(events: Seq<Event>, p: int, bom: usize, flow_style: bool, sc: (int, bool, nat), inner_end: Option<usize>) -> Option<Span> {
    span_from(
        event_offset(events, p, bom),
        collection_end_spec(
            flow_style,
            if sc.1 {
                Some(event_offset(events, sc.0 - 1, bom))
            } else {
                None
            },
            inner_end,
        ),
    )
}

/// The text a mapping entry records for a key that begins at event `k`:
/// a scalar key's value; `None` for any other key.
pub open spec fn key_text_of(events: Seq<Event>, k: int) -> Option<String> {
    match events[k].event_type {
        EventType::Scalar { value, .. } => Some(value),
        _ => None,
    }
}

/// Item `i` of the sequence that begins at event `p` was walked: `child`
/// is the tree of the node starting at [`item_start`].
pub open spec fn item_walked(events: Seq<Event>, p: int, by_start: Map<usize, Lexeme>, bom: usize, i: int, child: SpanNode) -> bool {
    let q = item_start(events, p + 1, i as nat);
    &&& p < q <= events.len()
    &&& walk_tree(events, q, by_start, bom, child)
}

/// Entry `i` of the mapping that begins at event `p` was walked: its key
/// node `key` and its recorded text and value are those of the key
/// starting at [`key_start`] and of what follows it.
pub open spec fn entry_walked(
    events: Seq<Event>,
    p: int,
    by_start: Map<usize, Lexeme>,
    bom: usize,
    i: int,
    entry: (Option<String>, SpanNode),
    key: SpanNode,
) -> bool {
    let k = key_start(events, p + 1, i as nat);
    let kend = walk_end(events, k);
    &&& p < k < kend <= events.len()
    &&& walk_tree(events, k, by_start, bom, key)
    &&& entry.0 == key_text_of(events, k)
    &&& if kend < events.len() && !is_boundary_event(events[kend]) && !(events[kend].event_type is MappingEnd)
        && begins_node(events[kend]) {
        walk_tree(events, kend, by_start, bom, entry.1)
    } else {
        entry.1 == SpanNode::Scalar { span: None }
    }
}

/// `n` is the span tree of the node that begins at event `p`: a scalar's
/// or alias's span from the lexemes; a sequence's items walked in turn; a
/// mapping's entries, each the key's text and the walked value (an
/// implicit null without a span when none follows); a block
/// collection's span running from its start to the largest end among
/// its nodes (a mapping's keys included), a flow collection's to just
/// past its closing bracket.
pub open spec fn walk_tree(events: Seq<Event>, p: int, by_start: Map<usize, Lexeme>, bom: usize, n: SpanNode) -> bool
    decreases events.len() - p,
{
    if p < 0 || p >= events.len() {
        false
    } else {
        let start = event_offset(events, p, bom);
        match events[p].event_type {
            EventType::Scalar { value, style, .. } => n == SpanNode::Scalar {
                span: scalar_span_spec(by_start, start, value@, style),
            },
            EventType::Alias { anchor } => n == match alias_span_spec(by_start, start, anchor@) {
                Some(span) => SpanNode::Alias { span },
                None => SpanNode::Scalar { span: None },
            },
            EventType::SequenceStart { flow_style, .. } => {
                let sc = seq_scan(events, p + 1);
                &&& n matches SpanNode::Sequence { span, children }
                &&& children@.len() == sc.2
                &&& forall|i: int|
                    0 <= i < children@.len() ==> {
                        let q = item_start(events, p + 1, i as nat);
                        p < q <= events.len() ==> walk_tree(events, q, by_start, bom, #[trigger] children@[i])
                    }
                &&& span == scanned_span(events, p, bom, flow_style, sc, nodes_max_end(children@))
            },
            EventType::MappingStart { flow_style, .. } => {
                let sc = map_scan(events, p + 1);
                &&& n matches SpanNode::Mapping { span, entries }
                &&& entries@.len() == sc.2
                &&& forall|i: int|
                    0 <= i < entries@.len() ==> {
                        let k = key_start(events, p + 1, i as nat);
                        let kend = walk_end(events, k);
                        &&& (#[trigger] entries@[i]).0 == key_text_of(events, k)
                        &&& if kend < events.len() && !is_boundary_event(events[kend])
                            && !(events[kend].event_type is MappingEnd) && begins_node(events[kend]) {
                            p < kend ==> walk_tree(events, kend, by_start, bom, entries@[i].1)
                        } else {
                            entries@[i].1 == SpanNode::Scalar { span: None }
                        }
                    }
                &&& exists|keys: Seq<SpanNode>|
                    {
                        &&& keys.len() == entries@.len()
                        &&& forall|i: int|
                            0 <= i < keys.len() ==> {
                                let k = key_start(events, p + 1, i as nat);
                                p < k <= events.len() ==> walk_tree(events, k, by_start, bom, #[trigger] keys[i])
                            }
                        &&& span == scanned_span(
                            events,
                            p,
                            bom,
                            flow_style,
                            sc,
                            max_opt(entries_max_end(entries@), nodes_max_end(keys)),
                        )
                    }
            },
            _ => false,
        }
    }
}

/// Recursively build the span tree for one node, mirroring the composer's
/// event walk: document boundaries that appear mid-collection end the
/// collection without being consumed.
pub fn walk_node(cursor: &mut Cursor, lexemes: &LexemeIndex, bom_len: usize) -> (r: Option<SpanNode>)
    requires
        old(cursor).pos <= old(cursor).events@.len(),
        events_fit(old(cursor).events@, bom_len),
    ensures
        final(cursor).events == old(cursor).events,
        old(cursor).pos <= final(cursor).pos <= old(cursor).events@.len(),
        old(cursor).pos < old(cursor).events@.len() ==> final(cursor).pos > old(cursor).pos,
        old(cursor).pos == old(cursor).events@.len() ==> r is None,
        final(cursor).pos == walk_end(old(cursor).events@, old(cursor).pos as int),
        r is Some <==> old(cursor).pos < old(cursor).events@.len() && begins_node(
            old(cursor).events@[old(cursor).pos as int],
        ),
        r matches Some(n) ==> walk_tree(old(cursor).events@, old(cursor).pos as int, lexemes.by_start@, bom_len, n),
        old(cursor).pos < old(cursor).events@.len() ==> ({
            let e = old(cursor).events@[old(cursor).pos as int];
            let start = (e.position.index + bom_len) as usize;
            match e.event_type {
                EventType::Scalar { value, style, .. } => r == Some(
                    SpanNode::Scalar { span: scalar_span_spec(lexemes.by_start@, start, value@, style) },
                ) && final(cursor).pos == old(cursor).pos + 1,
                EventType::Alias { anchor } => r == Some(
                    match alias_span_spec(lexemes.by_start@, start, anchor@) {
                        Some(span) => SpanNode::Alias { span },
                        None => SpanNode::Scalar { span: None },
                    },
                ) && final(cursor).pos == old(cursor).pos + 1,
                EventType::SequenceStart { flow_style, .. } => r matches Some(
                    SpanNode::Sequence { span, children },
                ) && (!flow_style ==> span == span_from(start, nodes_max_end(children@))) && (flow_style
                    ==> (span matches Some(sp) ==> closed_by(
                    final(cursor).events@,
                    final(cursor).pos,
                    bom_len,
                    sp,
                    start,
                    false,
                ))),
                EventType::MappingStart { flow_style, .. } => r matches Some(SpanNode::Mapping { span, entries }) && (
                !flow_style ==> (span matches Some(sp) ==> sp.start == start) && (entries_max_end(entries@) matches Some(
                    e,
                ) ==> span matches Some(sp) && e <= sp.end)) && (flow_style ==> (span matches Some(sp)
                    ==> closed_by(final(cursor).events@, final(cursor).pos, bom_len, sp, start, true))),
                _ => r is None && final(cursor).pos == old(cursor).pos + 1,
            }
        }),
    decreases old(cursor).events@.len() - old(cursor).pos,
{
    let ghost start_pos = cursor.pos;
    let event = match cursor.advance() {
        Some(e) => e,
        None => return None,
    };
    proof {
        assert(cursor.events@[start_pos as int] == *event);
    }
    let start = event.position.index + bom_len;
    match &event.event_type {
        EventType::Scalar { value, style, .. } => Some(
            SpanNode::Scalar { span: lexemes.scalar_span(start, value.as_str(), *style) },
        ),
        EventType::Alias { anchor } => {
            match lexemes.alias_span(start, anchor.as_str()) {
                Some(span) => Some(SpanNode::Alias { span }),
                None => Some(SpanNode::Scalar { span: None }),
            }
        },
        EventType::SequenceStart { flow_style, .. } => {
            let mut children: Vec<SpanNode> = Vec::new();
            let mut closer: Option<usize> = None;
            let ghost evs = cursor.events@;
            let ghost q0 = start_pos + 1;
            loop
                invariant_except_break
                    closer is None,
                    cursor.pos == item_start(evs, q0, children@.len()),
                    seq_scan(evs, q0) == (
                        seq_scan(evs, cursor.pos as int).0,
                        seq_scan(evs, cursor.pos as int).1,
                        children@.len() + seq_scan(evs, cursor.pos as int).2,
                    ),
                invariant
                    evs == cursor.events@,
                    q0 == old(cursor).pos + 1,
                    cursor.events == old(cursor).events,
                    events_fit(cursor.events@, bom_len),
                    old(cursor).pos < cursor.pos <= cursor.events@.len(),
                    closer matches Some(p) ==> p < usize::MAX && cursor.events@[cursor.pos - 1].event_type is SequenceEnd
                        && p == cursor.events@[cursor.pos - 1].position.index + bom_len,
                    forall|i: int| 0 <= i < children@.len() ==> item_walked(evs, old(cursor).pos as int, lexemes.by_start@, bom_len, i, #[trigger] children@[i]),
                ensures
                    cursor.pos == seq_scan(evs, q0).0,
                    children@.len() == seq_scan(evs, q0).2,
                    closer == (if seq_scan(evs, q0).1 {
                        Some(event_offset(evs, seq_scan(evs, q0).0 - 1, bom_len))
                    } else {
                        None::<usize>
                    }),
                decreases cursor.events@.len() - cursor.pos,
            {
                let ghost cur = cursor.pos;
                if cursor.at_sequence_end() {
                    let end_event = cursor.advance();
                    match end_event {
                        Some(e) => {
                            proof {
                                assert(cursor.events@[cursor.pos - 1] == *e);
                            }
                            closer = Some(e.position.index + bom_len);
                        },
                        None => {},
                    }
                    break;
                }
                if cursor.at_boundary() {
                    break;
                }
                match walk_node(cursor, lexemes, bom_len) {
                    Some(child) => {
                        let ghost before = children@;
                        children.push(child);
                        proof {
                            assert(item_start(evs, q0, before.len()) == cur);
                            assert forall|i: int| 0 <= i < children@.len() implies item_walked(evs, old(cursor).pos as int, lexemes.by_start@, bom_len, i, #[trigger] children@[i]) by {
                                if i < before.len() {
                                    assert(children@[i] == before[i]);
                                }
                            }
                        }
                    },
                    None => break,
                }
            }
            let children_end = max_span_end(children.as_slice());
            let end = collection_end(*flow_style, closer, children_end);
            let result = SpanNode::Sequence { span: collection_span(start, end), children };
            proof {
                assert(start == event_offset(evs, start_pos as int, bom_len));
                assert(walk_tree(evs, start_pos as int, lexemes.by_start@, bom_len, result));
            }
            Some(result)
        },
        EventType::MappingStart { flow_style, .. } => {
            let mut entries: Vec<(Option<String>, SpanNode)> = Vec::new();
            let mut key_nodes: Vec<SpanNode> = Vec::new();
            let mut closer: Option<usize> = None;
            let ghost evs = cursor.events@;
            let ghost q0 = start_pos + 1;
            loop
                invariant_except_break
                    closer is None,
                    cursor.pos == key_start(evs, q0, entries@.len()),
                    map_scan(evs, q0) == (
                        map_scan(evs, cursor.pos as int).0,
                        map_scan(evs, cursor.pos as int).1,
                        entries@.len() + map_scan(evs, cursor.pos as int).2,
                    ),
                invariant
                    evs == cursor.events@,
                    q0 == old(cursor).pos + 1,
                    cursor.events == old(cursor).events,
                    events_fit(cursor.events@, bom_len),
                    old(cursor).pos < cursor.pos <= cursor.events@.len(),
                    closer matches Some(p) ==> p < usize::MAX && cursor.events@[cursor.pos - 1].event_type is MappingEnd
                        && p == cursor.events@[cursor.pos - 1].position.index + bom_len,
                    key_nodes@.len() == entries@.len(),
                    forall|i: int| 0 <= i < entries@.len() ==> entry_walked(evs, old(cursor).pos as int, lexemes.by_start@, bom_len, i, #[trigger] entries@[i], key_nodes@[i]),
                ensures
                    cursor.pos == map_scan(evs, q0).0,
                    entries@.len() == map_scan(evs, q0).2,
                    key_nodes@.len() == entries@.len(),
                    forall|i: int| 0 <= i < entries@.len() ==> entry_walked(evs, old(cursor).pos as int, lexemes.by_start@, bom_len, i, #[trigger] entries@[i], key_nodes@[i]),
                    closer == (if map_scan(evs, q0).1 {
                        Some(event_offset(evs, map_scan(evs, q0).0 - 1, bom_len))
                    } else {
                        None::<usize>
                    }),
                decreases cursor.events@.len() - cursor.pos,
            {
                let ghost cur = cursor.pos;
                if cursor.at_mapping_end() {
                    let end_event = cursor.advance();
                    match end_event {
                        Some(e) => {
                            proof {
                                assert(cursor.events@[cursor.pos - 1] == *e);
                            }
                            closer = Some(e.position.index + bom_len);
                        },
                        None => {},
                    }
                    break;
                }
                if cursor.at_boundary() {
                    break;
                }
                // Remember a scalar key's text for path resolution.
                let key_text: Option<String> = match cursor.peek() {
                    Some(e) => match &e.event_type {
                        EventType::Scalar { value, .. } => Some(value.clone()),
                        _ => None,
                    },
                    None => None,
                };
                let key_node = match walk_node(cursor, lexemes, bom_len) {
                    Some(k) => k,
                    None => break,
                };
                let entry_key = match key_node {
                    SpanNode::Scalar { .. } => key_text,
                    _ => None,
                };
                let value_node = if cursor.at_boundary() || cursor.at_mapping_end() {
                    SpanNode::Scalar { span: None }
                } else {
                    match walk_node(cursor, lexemes, bom_len) {
                        Some(v) => v,
                        None => SpanNode::Scalar { span: None },
                    }
                };
                let ghost before_e = entries@;
                let ghost before_k = key_nodes@;
                key_nodes.push(key_node);
                entries.push((entry_key, value_node));
                proof {
                    assert forall|i: int| 0 <= i < entries@.len() implies entry_walked(evs, old(cursor).pos as int, lexemes.by_start@, bom_len, i, #[trigger] entries@[i], key_nodes@[i]) by {
                        if i < before_e.len() {
                            assert(entries@[i] == before_e[i]);
                            assert(key_nodes@[i] == before_k[i]);
                        }
                    }
                }
            }
            // A block mapping's span covers its key bytes too: the last entry
            // may have a spanless implicit-null value.
            let values_end = max_entry_end(entries.as_slice());
            let keys_end = max_span_end(key_nodes.as_slice());
            let end = collection_end(*flow_style, closer, max_opt_exec(values_end, keys_end));
            let result = SpanNode::Mapping { span: collection_span(start, end), entries };
            let ghost res = result;
            proof {
                assert(start == event_offset(evs, start_pos as int, bom_len));
                let keys = key_nodes@;
                let sc = map_scan(evs, start_pos + 1);
                if let SpanNode::Mapping { span, entries } = res {
                    assert forall|i: int| 0 <= i < entries@.len() implies {
                        let k = key_start(evs, start_pos + 1, i as nat);
                        let kend = walk_end(evs, k);
                        &&& (#[trigger] entries@[i]).0 == key_text_of(evs, k)
                        &&& if kend < evs.len() && !is_boundary_event(evs[kend])
                            && !(evs[kend].event_type is MappingEnd) && begins_node(evs[kend]) {
                            start_pos < kend ==> walk_tree(evs, kend, lexemes.by_start@, bom_len, entries@[i].1)
                        } else {
                            entries@[i].1 == SpanNode::Scalar { span: None }
                        }
                    } by {
                        assert(entry_walked(evs, start_pos as int, lexemes.by_start@, bom_len, i, entries@[i], keys[i]));
                    }
                    assert forall|i: int| 0 <= i < keys.len() implies {
                        let k = key_start(evs, start_pos + 1, i as nat);
                        start_pos < k <= evs.len() ==> walk_tree(evs, k, lexemes.by_start@, bom_len, #[trigger] keys[i])
                    } by {
                        assert(entry_walked(evs, start_pos as int, lexemes.by_start@, bom_len, i, entries@[i], keys[i]));
                    }
                    assert(span == scanned_span(
                        evs,
                        start_pos as int,
                        bom_len,
                        *flow_style,
                        sc,
                        max_opt(entries_max_end(entries@), nodes_max_end(keys)),
                    ));
                }
                assert(walk_tree(evs, start_pos as int, lexemes.by_start@, bom_len, result));
            }
            Some(result)
        },
        _ => None,
    }
}

/// The index of the first event at or after `p` that is not a document
/// start.
pub open spec fn skip_starts(events: Seq<Event>, p: int) -> int
    decreases events.len() - p,
{
    if p < 0 || p >= events.len() || !(events[p].event_type is DocumentStart) {
        p
    } else {
        skip_starts(events, p + 1)
    }
}

/// The index of the first event at or after `p` that is not a document
/// end.
pub open spec fn skip_ends(events: Seq<Event>, p: int) -> int
    decreases events.len() - p,
{
    if p < 0 || p >= events.len() || !(events[p].event_type is DocumentEnd) {
        p
    } else {
        skip_ends(events, p + 1)
    }
}

/// Where the events of the next document begin, once the document whose
/// events begin at `c` has been walked: past its document starts, its
/// root node and its document ends.
pub open spec fn next_doc(events: Seq<Event>, c: int) -> int {
    skip_ends(events, walk_end(events, skip_starts(events, c)))
}

/// How many documents with a root node follow from event `c`: each
/// stops at the end of the events, at the stream end, or at an event
/// that begins no node.
pub open spec fn doc_count(events: Seq<Event>, c: int) -> nat
    decreases events.len() - c,
{
    let q = skip_starts(events, c);
    if c < 0 || q >= events.len() || events[q].event_type is StreamEnd || !begins_node(events[q]) {
        0
    } else {
        let n = next_doc(events, c);
        if c < n <= events.len() {
            1 + doc_count(events, n)
        } else {
            0
        }
    }
}

/// Where the events of document `i` counted from `c` begin.
pub open spec fn doc_at(events: Seq<Event>, c: int, i: nat) -> int
    decreases i,
{
    if i == 0 {
        c
    } else {
        next_doc(events, doc_at(events, c, (i - 1) as nat))
    }
}

/// The event at which the root node of document `i` counted from `c`
/// begins.
pub open spec fn doc_root(events: Seq<Event>, c: int, i: nat) -> int {
    skip_starts(events, doc_at(events, c, i))
}

/// Where the documents of a stream begin: past a leading stream start.
pub open spec fn docs_from(events: Seq<Event>) -> int {
    if events.len() > 0 && events[0].event_type is StreamStart {
        1
    } else {
        0
    }
}

/// Where the first document's root node stands: past a leading stream
/// start and any document starts.
pub open spec fn first_root(events: Seq<Event>) -> int {
    skip_starts(
        events,
        if events.len() > 0 && events[0].event_type is StreamStart {
            1
        } else {
            0
        },
    )
}

/// Whether the event at `q` begins a node (a scalar, an alias or a
/// collection).
pub open spec fn starts_node(events: Seq<Event>, q: int) -> bool {
    &&& 0 <= q < events.len()
    &&& {
        let e = events[q].event_type;
        e is Scalar || e is Alias || e is SequenceStart || e is MappingStart
    }
}

/// Split the event stream into one span tree per document, mirroring the
/// composer's per-document loop: consume leading document starts, walk one
/// node, consume trailing document ends.
pub fn document_trees(events: &[Event], lexemes: &LexemeIndex, bom_len: usize) -> (r: Vec<SpanNode>)
    requires
        events_fit(events@, bom_len),
    ensures
        r@.len() <= events@.len(),
        r@.len() == doc_count(events@, docs_from(events@)),
        forall|i: int|
            0 <= i < r@.len() ==> walk_tree(
                events@,
                doc_root(events@, docs_from(events@), i as nat),
                lexemes.by_start@,
                bom_len,
                #[trigger] r@[i],
            ),
        first_root(events@) >= events@.len() || events@[first_root(events@)].event_type is StreamEnd ==> r@.len()
            == 0,
        starts_node(events@, first_root(events@)) ==> r@.len() >= 1 && walk_tree(
            events@,
            first_root(events@),
            lexemes.by_start@,
            bom_len,
            r@[0],
        ),
{
    let ghost q = first_root(events@);
    let mut cursor = Cursor { events, pos: 0 };
    let mut trees: Vec<SpanNode> = Vec::new();
    match cursor.peek() {
        Some(e) => match &e.event_type {
            EventType::StreamStart => {
                cursor.advance();
            },
            _ => {},
        },
        None => {},
    }
    let ghost s0 = docs_from(events@);
    loop
        invariant_except_break
            trees@.len() == 0 ==> skip_starts(events@, cursor.pos as int) == q,
            cursor.pos == doc_at(events@, s0, trees@.len()),
            doc_count(events@, s0) == trees@.len() + doc_count(events@, cursor.pos as int),
        invariant
            s0 == docs_from(events@),
            forall|i: int|
                0 <= i < trees@.len() ==> walk_tree(
                    events@,
                    doc_root(events@, s0, i as nat),
                    lexemes.by_start@,
                    bom_len,
                    #[trigger] trees@[i],
                ),
            cursor.events == events,
            events_fit(events@, bom_len),
            cursor.pos <= events@.len(),
            trees@.len() <= cursor.pos,
            q == first_root(events@),
            trees@.len() >= 1 ==> q < events@.len() && !(events@[q].event_type is StreamEnd) && walk_tree(
                events@,
                q,
                lexemes.by_start@,
                bom_len,
                trees@[0],
            ),
        ensures
            trees@.len() <= events@.len(),
            trees@.len() == doc_count(events@, s0),
            q >= events@.len() || events@[q].event_type is StreamEnd ==> trees@.len() == 0,
            starts_node(events@, q) ==> trees@.len() >= 1 && walk_tree(
                events@,
                q,
                lexemes.by_start@,
                bom_len,
                trees@[0],
            ),
        decreases events@.len() - cursor.pos,
    {
        let ghost p0 = cursor.pos;
        let ghost t0 = trees@;
        loop
            invariant
                cursor.events == events,
                p0 <= cursor.pos <= events@.len(),
                trees@.len() <= cursor.pos,
                trees@ == t0,
                trees@.len() == 0 ==> skip_starts(events@, cursor.pos as int) == q,
                skip_starts(events@, cursor.pos as int) == skip_starts(events@, p0 as int),
            ensures
                cursor.pos >= events@.len() || !(events@[cursor.pos as int].event_type is DocumentStart),
            decreases events@.len() - cursor.pos,
        {
            let is_start = match cursor.peek() {
                Some(e) => match &e.event_type {
                    EventType::DocumentStart { .. } => true,
                    _ => false,
                },
                None => false,
            };
            if !is_start {
                break;
            }
            cursor.advance();
        }
        let stop = match cursor.peek() {
            None => true,
            Some(e) => match &e.event_type {
                EventType::StreamEnd => true,
                _ => false,
            },
        };
        if stop {
            break;
        }
        let ghost pw = cursor.pos;
        assert(trees@.len() == 0 ==> pw == q);
        let tree = match walk_node(&mut cursor, lexemes, bom_len) {
            Some(t) => t,
            None => break,
        };
        let ghost before = trees@;
        trees.push(tree);
        proof {
            assert forall|i: int|
                0 <= i < trees@.len() implies walk_tree(
                    events@,
                    doc_root(events@, s0, i as nat),
                    lexemes.by_start@,
                    bom_len,
                    #[trigger] trees@[i],
                ) by {
                if i < before.len() {
                    assert(trees@[i] == before[i]);
                }
            }
        }
        let ghost p1 = cursor.pos;
        assert(p1 > p0);
        loop
            invariant
                cursor.events == events,
                p1 <= cursor.pos <= events@.len(),
                trees@.len() <= cursor.pos,
                skip_ends(events@, cursor.pos as int) == skip_ends(events@, p1 as int),
            ensures
                cursor.pos >= events@.len() || !(events@[cursor.pos as int].event_type is DocumentEnd),
            decreases events@.len() - cursor.pos,
        {
            let is_end = match cursor.peek() {
                Some(e) => match &e.event_type {
                    EventType::DocumentEnd { .. } => true,
                    _ => false,
                },
                None => false,
            };
            if !is_end {
                break;
            }
            cursor.advance();
        }
    }
    trees
}

} // verus!

verus! {

/// A span moved `base` bytes toward the start.
pub open spec fn shift(s: Span, base: usize) -> Span {
    Span { start: (s.start - base) as usize, end: (s.end - base) as usize }
}

/// An optional span moved `base` bytes toward the start.
pub open spec fn shift_opt(s: Option<Span>, base: usize) -> Option<Span> {
    match s {
        Some(s) => Some(shift(s, base)),
        None => None,
    }
}

/// A span lies at or after `base`.
pub open spec fn span_above(s: Span, base: usize) -> bool {
    s.start >= base && s.end >= base
}

/// An optional span is absent or lies at or after `base`.
pub open spec fn opt_span_above(s: Option<Span>, base: usize) -> bool {
    match s {
        Some(s) => span_above(s, base),
        None => true,
    }
}

/// Every span in the tree lies at or after `base`.
pub open spec fn node_above(n: SpanNode, base: usize) -> bool
    decreases n,
{
    match n {
        SpanNode::Scalar { span } => opt_span_above(span, base),
        SpanNode::Alias { span } => span_above(span, base),
        SpanNode::Sequence { span, children } => opt_span_above(span, base) && nodes_above(
            children@,
            base,
        ),
        SpanNode::Mapping { span, entries } => opt_span_above(span, base) && entries_above(
            entries@,
            base,
        ),
    }
}

/// Every node of `ns` lies at or after `base`.
pub open spec fn nodes_above(ns: Seq<SpanNode>, base: usize) -> bool
    decreases ns,
{
    if ns.len() == 0 {
        true
    } else {
        node_above(ns[0], base) && nodes_above(ns.drop_first(), base)
    }
}

/// Every entry value of `es` lies at or after `base`.
pub open spec fn entries_above(es: Seq<(Option<String>, SpanNode)>, base: usize) -> bool
    decreases es,
{
    if es.len() == 0 {
        true
    } else {
        node_above(es[0].1, base) && entries_above(es.drop_first(), base)
    }
}

/// `b` is `a` with every span moved `base` bytes toward the start.
pub open spec fn rebased(a: SpanNode, b: SpanNode, base: usize) -> bool
    decreases a,
{
    match (a, b) {
        (SpanNode::Scalar { span: s }, SpanNode::Scalar { span: t }) => t == shift_opt(s, base),
        (SpanNode::Alias { span: s }, SpanNode::Alias { span: t }) => t == shift(s, base),
        (
            SpanNode::Sequence { span: s, children: c },
            SpanNode::Sequence { span: t, children: d },
        ) => t == shift_opt(s, base) && rebased_nodes(c@, d@, base),
        (
            SpanNode::Mapping { span: s, entries: c },
            SpanNode::Mapping { span: t, entries: d },
        ) => t == shift_opt(s, base) && rebased_entries(c@, d@, base),
        _ => false,
    }
}

/// `bs` is `as_` with every node rebased.
pub open spec fn rebased_nodes(as_: Seq<SpanNode>, bs: Seq<SpanNode>, base: usize) -> bool
    decreases as_,
{
    if as_.len() == 0 {
        bs.len() == 0
    } else {
        bs.len() > 0 && rebased_nodes(as_.drop_last(), bs.drop_last(), base) && rebased(
            as_.last(),
            bs.last(),
            base,
        )
    }
}

/// `bs` is `as_` with the same keys and every value rebased.
pub open spec fn rebased_entries(
    as_: Seq<(Option<String>, SpanNode)>,
    bs: Seq<(Option<String>, SpanNode)>,
    base: usize,
) -> bool
    decreases as_,
{
    if as_.len() == 0 {
        bs.len() == 0
    } else {
        bs.len() > 0 && rebased_entries(as_.drop_last(), bs.drop_last(), base) && as_.last().0
            == bs.last().0 && rebased(as_.last().1, bs.last().1, base)
    }
}

/// Node-list facts stated element by element.
pub proof fn lemma_nodes_pointwise(ns: Seq<SpanNode>, base: usize, bytes: Seq<u8>)
    ensures
        nodes_above(ns, base) <==> forall|i: int| 0 <= i < ns.len() ==> #[trigger] node_above(ns[i], base),
        nodes_valid(ns, bytes) <==> forall|i: int| 0 <= i < ns.len() ==> #[trigger] node_valid(ns[i], bytes),
    decreases ns.len(),
{
    if ns.len() > 0 {
        lemma_nodes_pointwise(ns.drop_first(), base, bytes);
        assert forall|i: int| 0 < i < ns.len() implies ns[i] == #[trigger] ns.drop_first()[i - 1] by {}
        if nodes_above(ns, base) {
            assert forall|i: int| 0 <= i < ns.len() implies #[trigger] node_above(ns[i], base) by {
                if i > 0 {
                    assert(ns[i] == ns.drop_first()[i - 1]);
                }
            }
        }
        if forall|i: int| 0 <= i < ns.len() ==> #[trigger] node_above(ns[i], base) {
            assert(node_above(ns[0], base));
            assert forall|i: int| 0 <= i < ns.drop_first().len() implies #[trigger] node_above(ns.drop_first()[i], base) by {
                assert(node_above(ns[i + 1], base));
            }
        }
        if nodes_valid(ns, bytes) {
            assert forall|i: int| 0 <= i < ns.len() implies #[trigger] node_valid(ns[i], bytes) by {
                if i > 0 {
                    assert(ns[i] == ns.drop_first()[i - 1]);
                }
            }
        }
        if forall|i: int| 0 <= i < ns.len() ==> #[trigger] node_valid(ns[i], bytes) {
            assert(node_valid(ns[0], bytes));
            assert forall|i: int| 0 <= i < ns.drop_first().len() implies #[trigger] node_valid(ns.drop_first()[i], bytes) by {
                assert(node_valid(ns[i + 1], bytes));
            }
        }
    }
}

/// Entry-list facts stated element by element.
pub proof fn lemma_entries_pointwise(es: Seq<(Option<String>, SpanNode)>, base: usize, bytes: Seq<u8>)
    ensures
        entries_above(es, base) <==> forall|i: int| 0 <= i < es.len() ==> #[trigger] node_above(es[i].1, base),
        entries_valid(es, bytes) <==> forall|i: int| 0 <= i < es.len() ==> #[trigger] node_valid(es[i].1, bytes),
    decreases es.len(),
{
    if es.len() > 0 {
        lemma_entries_pointwise(es.drop_first(), base, bytes);
        assert forall|i: int| 0 < i < es.len() implies es[i] == #[trigger] es.drop_first()[i - 1] by {}
        if entries_above(es, base) {
            assert forall|i: int| 0 <= i < es.len() implies #[trigger] node_above(es[i].1, base) by {
                if i > 0 {
                    assert(es[i] == es.drop_first()[i - 1]);
                }
            }
        }
        if forall|i: int| 0 <= i < es.len() ==> #[trigger] node_above(es[i].1, base) {
            assert(node_above(es[0].1, base));
            assert forall|i: int| 0 <= i < es.drop_first().len() implies #[trigger] node_above(es.drop_first()[i].1, base) by {
                assert(node_above(es[i + 1].1, base));
            }
        }
        if entries_valid(es, bytes) {
            assert forall|i: int| 0 <= i < es.len() implies #[trigger] node_valid(es[i].1, bytes) by {
                if i > 0 {
                    assert(es[i] == es.drop_first()[i - 1]);
                }
            }
        }
        if forall|i: int| 0 <= i < es.len() ==> #[trigger] node_valid(es[i].1, bytes) {
            assert(node_valid(es[0].1, bytes));
            assert forall|i: int| 0 <= i < es.drop_first().len() implies #[trigger] node_valid(es.drop_first()[i].1, bytes) by {
                assert(node_valid(es[i + 1].1, bytes));
            }
        }
    }
}

fn check_span_above(s: Span, base: usize) -> (r: bool)
    ensures
        r == span_above(s, base),
{
    s.start >= base && s.end >= base
}

fn check_opt_span_above(s: Option<Span>, base: usize) -> (r: bool)
    ensures
        r == opt_span_above(s, base),
{
    match s {
        Some(s) => check_span_above(s, base),
        None => true,
    }
}

/// Whether every span in the tree lies at or after `base`.
#[verifier::loop_isolation(false)]
pub fn check_node_above(n: &SpanNode, base: usize) -> (r: bool)
    ensures
        r == node_above(*n, base),
    decreases n,
{
    match n {
        SpanNode::Scalar { span } => check_opt_span_above(*span, base),
        SpanNode::Alias { span } => check_span_above(*span, base),
        SpanNode::Sequence { span, children } => {
            if !check_opt_span_above(*span, base) {
                return false;
            }
            let mut i: usize = 0;
            while i < children.len()
                invariant
                    i <= children@.len(),
                    forall|j: int| 0 <= j < i ==> #[trigger] node_above(children@[j], base),
                decreases children@.len() - i,
            {
                if !check_node_above(&children[i], base) {
                    proof {
                        lemma_nodes_pointwise(children@, base, Seq::empty());
                    }
                    return false;
                }
                i = i + 1;
            }
            proof {
                lemma_nodes_pointwise(children@, base, Seq::empty());
            }
            true
        },
        SpanNode::Mapping { span, entries } => {
            if !check_opt_span_above(*span, base) {
                return false;
            }
            let mut i: usize = 0;
            while i < entries.len()
                invariant
                    i <= entries@.len(),
                    forall|j: int| 0 <= j < i ==> #[trigger] node_above(entries@[j].1, base),
                decreases entries@.len() - i,
            {
                if !check_node_above(&entries[i].1, base) {
                    proof {
                        lemma_entries_pointwise(entries@, base, Seq::empty());
                    }
                    return false;
                }
                i = i + 1;
            }
            proof {
                lemma_entries_pointwise(entries@, base, Seq::empty());
            }
            true
        },
    }
}

fn check_span_valid(s: Span, source: &str) -> (r: bool)
    ensures
        r == span_valid(s, source.spec_bytes()),
{
    proof {
        vstd::utf8::encode_utf8_valid_utf8(source@);
    }
    s.start <= s.end && s.end <= str_byte_len(source) && source.is_char_boundary(s.start)
        && source.is_char_boundary(s.end)
}

fn check_opt_span_valid(s: Option<Span>, source: &str) -> (r: bool)
    ensures
        r == opt_span_valid(s, source.spec_bytes()),
{
    match s {
        Some(s) => check_span_valid(s, source),
        None => true,
    }
}

/// Whether every span in the tree lies within `source` on character
/// boundaries.
#[verifier::loop_isolation(false)]
pub fn check_node_valid(n: &SpanNode, source: &str) -> (r: bool)
    ensures
        r == node_valid(*n, source.spec_bytes()),
    decreases n,
{
    match n {
        SpanNode::Scalar { span } => check_opt_span_valid(*span, source),
        SpanNode::Alias { span } => check_span_valid(*span, source),
        SpanNode::Sequence { span, children } => {
            if !check_opt_span_valid(*span, source) {
                return false;
            }
            let mut i: usize = 0;
            while i < children.len()
                invariant
                    i <= children@.len(),
                    forall|j: int| 0 <= j < i ==> #[trigger] node_valid(children@[j], source.spec_bytes()),
                decreases children@.len() - i,
            {
                if !check_node_valid(&children[i], source) {
                    proof {
                        lemma_nodes_pointwise(children@, 0, source.spec_bytes());
                    }
                    return false;
                }
                i = i + 1;
            }
            proof {
                lemma_nodes_pointwise(children@, 0, source.spec_bytes());
            }
            true
        },
        SpanNode::Mapping { span, entries } => {
            if !check_opt_span_valid(*span, source) {
                return false;
            }
            let mut i: usize = 0;
            while i < entries.len()
                invariant
                    i <= entries@.len(),
                    forall|j: int| 0 <= j < i ==> #[trigger] node_valid(entries@[j].1, source.spec_bytes()),
                decreases entries@.len() - i,
            {
                if !check_node_valid(&entries[i].1, source) {
                    proof {
                        lemma_entries_pointwise(entries@, 0, source.spec_bytes());
                    }
                    return false;
                }
                i = i + 1;
            }
            proof {
                lemma_entries_pointwise(entries@, 0, source.spec_bytes());
            }
            true
        },
    }
}

} // verus!

verus! {

fn shift_exec(s: Span, base: usize) -> (r: Span)
    requires
        span_above(s, base),
    ensures
        r == shift(s, base),
{
    Span { start: s.start - base, end: s.end - base }
}

fn shift_opt_exec(s: Option<Span>, base: usize) -> (r: Option<Span>)
    requires
        opt_span_above(s, base),
    ensures
        r == shift_opt(s, base),
{
    match s {
        Some(s) => Some(shift_exec(s, base)),
        None => None,
    }
}

/// Rebase a span tree so offsets index into a document's own source slice.
pub fn rebase_node(node: SpanNode, base: usize) -> (r: SpanNode)
    requires
        node_above(node, base),
    ensures
        rebased(node, r, base),
    decreases node,
{
    match node {
        SpanNode::Scalar { span } => SpanNode::Scalar { span: shift_opt_exec(span, base) },
        SpanNode::Alias { span } => SpanNode::Alias { span: shift_exec(span, base) },
        SpanNode::Sequence { span, children } => {
            let s = shift_opt_exec(span, base);
            let c = rebase_children(children, base);
            SpanNode::Sequence { span: s, children: c }
        },
        SpanNode::Mapping { span, entries } => {
            let s = shift_opt_exec(span, base);
            let e = rebase_entries(entries, base);
            SpanNode::Mapping { span: s, entries: e }
        },
    }
}

/// Rebase every node of a list, keeping its order.
fn rebase_children(v: Vec<SpanNode>, base: usize) -> (r: Vec<SpanNode>)
    requires
        nodes_above(v@, base),
    ensures
        rebased_nodes(v@, r@, base),
    decreases v,
{
    let ghost orig = v@;
    let ghost n = orig.len();
    proof {
        lemma_nodes_pointwise(orig, base, Seq::empty());
    }
    let mut rest = v;
    let mut rev: Vec<SpanNode> = Vec::new();
    while rest.len() > 0
        invariant
            n == orig.len(),
            orig == v@,
            rest@ == orig.subrange(0, rest@.len() as int),
            rev@.len() + rest@.len() == n,
            forall|i: int| 0 <= i < n ==> #[trigger] node_above(orig[i], base),
            forall|k: int| 0 <= k < rev@.len() ==> rebased(orig[n - 1 - k], #[trigger] rev@[k], base),
        decreases rest@.len(),
    {
        let ghost before = rest@;
        let c = rest.pop().unwrap();
        proof {
            assert(c == orig[rest@.len() as int]);
            assert(rest@ =~= orig.subrange(0, rest@.len() as int));
            assert(decreases_to!(v => v@));
            assert(decreases_to!(v@ => v@[rest@.len() as int]));
        }
        let rc = rebase_node(c, base);
        rev.push(rc);
    }
    let mut out: Vec<SpanNode> = Vec::new();
    while rev.len() > 0
        invariant
            n == orig.len(),
            out@.len() + rev@.len() == n,
            forall|k: int| 0 <= k < rev@.len() ==> rebased(orig[n - 1 - k], #[trigger] rev@[k], base),
            rebased_nodes(orig.subrange(0, out@.len() as int), out@, base),
        decreases rev@.len(),
    {
        let x = rev.pop().unwrap();
        proof {
            let j = out@.len() as int;
            assert(rebased(orig[j], x, base));
            assert(orig.subrange(0, j + 1).drop_last() =~= orig.subrange(0, j));
            assert(orig.subrange(0, j + 1).last() == orig[j]);
        }
        let ghost old_out = out@;
        out.push(x);
        proof {
            assert(out@.drop_last() =~= old_out);
        }
    }
    proof {
        assert(orig.subrange(0, n as int) =~= orig);
    }
    out
}

/// Rebase every entry value of a list, keeping keys and order.
fn rebase_entries(v: Vec<(Option<String>, SpanNode)>, base: usize) -> (r: Vec<(Option<String>, SpanNode)>)
    requires
        entries_above(v@, base),
    ensures
        rebased_entries(v@, r@, base),
    decreases v,
{
    let ghost orig = v@;
    let ghost n = orig.len();
    proof {
        lemma_entries_pointwise(orig, base, Seq::empty());
    }
    let mut rest = v;
    let mut rev: Vec<(Option<String>, SpanNode)> = Vec::new();
    while rest.len() > 0
        invariant
            n == orig.len(),
            orig == v@,
            rest@ == orig.subrange(0, rest@.len() as int),
            rev@.len() + rest@.len() == n,
            forall|i: int| 0 <= i < n ==> #[trigger] node_above(orig[i].1, base),
            forall|k: int|
                0 <= k < rev@.len() ==> orig[n - 1 - k].0 == (#[trigger] rev@[k]).0 && rebased(
                    orig[n - 1 - k].1,
                    rev@[k].1,
                    base,
                ),
        decreases rest@.len(),
    {
        let (key, c) = rest.pop().unwrap();
        proof {
            assert(rest@ =~= orig.subrange(0, rest@.len() as int));
            assert(decreases_to!(v => v@));
            assert(decreases_to!(v@ => v@[rest@.len() as int]));
            assert(decreases_to!(v@[rest@.len() as int] => v@[rest@.len() as int].1));
        }
        let rc = rebase_node(c, base);
        rev.push((key, rc));
    }
    let mut out: Vec<(Option<String>, SpanNode)> = Vec::new();
    while rev.len() > 0
        invariant
            n == orig.len(),
            out@.len() + rev@.len() == n,
            forall|k: int|
                0 <= k < rev@.len() ==> orig[n - 1 - k].0 == (#[trigger] rev@[k]).0 && rebased(
                    orig[n - 1 - k].1,
                    rev@[k].1,
                    base,
                ),
            rebased_entries(orig.subrange(0, out@.len() as int), out@, base),
        decreases rev@.len(),
    {
        let x = rev.pop().unwrap();
        proof {
            let j = out@.len() as int;
            assert(orig.subrange(0, j + 1).drop_last() =~= orig.subrange(0, j));
            assert(orig.subrange(0, j + 1).last() == orig[j]);
        }
        let ghost old_out = out@;
        out.push(x);
        proof {
            assert(out@.drop_last() =~= old_out);
        }
    }
    proof {
        assert(orig.subrange(0, n as int) =~= orig);
    }
    out
}

} // verus!

verus! {

/// The span of the node that `path` addresses in a span index, when it
/// resolves and has source bytes of its own.
pub open spec fn doc_span_of(root: Option<SpanNode>, path: Seq<PathSegment>) -> Option<Span> {
    match root {
        Some(n) => match resolve_spec(n, path) {
            Some(m) => m.spec_span(),
            None => None,
        },
        None => None,
    }
}

/// The first index at or below `i` that is a character boundary.
pub open spec fn snap_boundary(bytes: Seq<u8>, i: int) -> int
    decreases i,
{
    if i > 0 && !is_char_boundary(bytes, i) {
        snap_boundary(bytes, i - 1)
    } else {
        i
    }
}

/// The number of line feeds in `bytes`.
pub open spec fn count_newlines(bytes: Seq<u8>) -> nat
    decreases bytes.len(),
{
    if bytes.len() == 0 {
        0
    } else {
        count_newlines(bytes.drop_last()) + if bytes.last() == 10 {
            1nat
        } else {
            0nat
        }
    }
}

/// The number of characters (leading bytes) after the last line feed in
/// `bytes`, or in all of `bytes` when it has none.
pub open spec fn chars_after_last_newline(bytes: Seq<u8>) -> nat
    decreases bytes.len(),
{
    if bytes.len() == 0 {
        0
    } else if bytes.last() == 10 {
        0
    } else {
        chars_after_last_newline(bytes.drop_last()) + if is_continuation_byte(bytes.last()) {
            0nat
        } else {
            1nat
        }
    }
}

proof fn lemma_counts_bounded(bytes: Seq<u8>)
    ensures
        count_newlines(bytes) <= bytes.len(),
        chars_after_last_newline(bytes) <= bytes.len(),
    decreases bytes.len(),
{
    if bytes.len() > 0 {
        lemma_counts_bounded(bytes.drop_last());
    }
}

/// The line/column position of byte offset `index` in `bytes`: the offset
/// is first clamped to the end and snapped back to a character boundary.
pub open spec fn position_at_spec(bytes: Seq<u8>, index: usize) -> Position {
    let i = snap_boundary(bytes, if index <= bytes.len() { index as int } else { bytes.len() as int });
    let prefix = bytes.subrange(0, i);
    Position {
        line: (count_newlines(prefix) + 1) as usize,
        column: (chars_after_last_newline(prefix) + 1) as usize,
        index: i as usize,
    }
}

/// The concatenated sources of a sequence of documents.
pub open spec fn concat_sources(docs: Seq<RoundTripDocument>) -> Seq<char>
    decreases docs.len(),
{
    if docs.len() == 0 {
        Seq::empty()
    } else {
        concat_sources(docs.drop_last()) + docs.last().spec_source()
    }
}

/// A single YAML document whose original source bytes are preserved
/// verbatim and can be surgically edited span by span.
#[derive(Debug)]
pub struct RoundTripDocument {
    /// The document's original bytes, kept verbatim.
    source: String,
    /// Typed view of the document, composed by the loading pipeline.
    value: Value,
    /// Structural span index over `source`.
    root: Option<SpanNode>,
}

impl RoundTripDocument {
    /// Every span of the index lies in the source on character boundaries,
    /// and the source's length leaves room to count past it.
    #[verifier::type_invariant]
    spec fn wf(self) -> bool {
        &&& encode_utf8(self.source@).len() < usize::MAX
        &&& self.root matches Some(r) ==> node_valid(r, encode_utf8(self.source@))
    }

    /// The document's source text.
    pub closed spec fn spec_source(self) -> Seq<char> {
        self.source@
    }

    /// The document's typed value.
    pub closed spec fn spec_value(self) -> Value {
        self.value
    }

    /// The document's span index.
    pub closed spec fn spec_root(self) -> Option<SpanNode> {
        self.root
    }

    /// The document's source bytes.
    pub open spec fn spec_bytes(self) -> Seq<u8> {
        encode_utf8(self.spec_source())
    }

    /// The document's original bytes, verbatim.
    pub fn source(&self) -> (s: &str)
        ensures
            s@ == self.spec_source(),
    {
        self.source.as_str()
    }

    /// The typed value of the document; intentionally lossy (comments,
    /// formatting and scalar spellings are normalized).
    pub fn value(&self) -> (v: &Value)
        ensures
            *v == self.spec_value(),
    {
        &self.value
    }

    /// The document printed: its source bytes, verbatim.
    pub fn to_string(&self) -> (s: String)
        ensures
            s@ == self.spec_source(),
    {
        self.source.clone()
    }

    /// Walk the span index by path segments.
    fn resolve(&self, path: &[PathSegment]) -> (r: Option<&SpanNode>)
        ensures
            match r {
                Some(n) => self.spec_root() matches Some(root) && resolve_spec(root, path@) == Some(*n),
                None => match self.spec_root() {
                    Some(root) => resolve_spec(root, path@) is None,
                    None => true,
                },
            },
    {
        let mut node = match &self.root {
            Some(n) => n,
            None => return None,
        };
        let mut i: usize = 0;
        proof {
            assert(path@.subrange(0, path@.len() as int) =~= path@);
        }
        while i < path.len()
            invariant
                self.root matches Some(root) && i <= path@.len() && resolve_spec(root, path@)
                    == resolve_spec(*node, path@.subrange(i as int, path@.len() as int)),
            decreases path@.len() - i,
        {
            proof {
                let rest = path@.subrange(i as int, path@.len() as int);
                assert(rest[0] == path@[i as int]);
                assert(rest.drop_first() =~= path@.subrange(i + 1, path@.len() as int));
            }
            node = match step(node, &path[i]) {
                Some(m) => m,
                None => return None,
            };
            i = i + 1;
        }
        proof {
            let rest = path@.subrange(i as int, path@.len() as int);
            assert(rest.len() == 0);
        }
        Some(node)
    }

    /// Resolve a concrete path to the byte span of the node it addresses.
    ///
    /// `None` when the path does not resolve, or when the node has no
    /// source bytes of its own: nodes the parser fabricated (the implicit
    /// null in `key:`), entries merged in through a `<<` merge key, nodes
    /// inside alias-expanded content, and complex keys. An alias node
    /// itself resolves to the span of its `*name` reference.
    pub fn span_of(&self, path: &[PathSegment]) -> (r: Option<Span>)
        ensures
            r == doc_span_of(self.spec_root(), path@),
            r matches Some(s) ==> span_fits(self.spec_bytes(), s),
    {
        proof {
            use_type_invariant(self);
            if self.root is Some {
                lemma_resolve_valid(self.root.unwrap(), path@, encode_utf8(self.source@));
            }
        }
        match self.resolve(path) {
            Some(n) => n.span(),
            None => None,
        }
    }

    /// The original source bytes of the node addressed by `path`, verbatim
    /// (quotes, block-scalar headers and interior formatting included).
    pub fn get(&self, path: &[PathSegment]) -> (r: Option<&str>)
        ensures
            r is Some <==> doc_span_of(self.spec_root(), path@) is Some,
            r is Some ==> ({
                let s = doc_span_of(self.spec_root(), path@).unwrap();
                r->0.spec_bytes() == self.spec_bytes().subrange(s.start as int, s.end as int)
            }),
    {
        proof {
            use_type_invariant(self);
        }
        match self.resolve(path) {
            Some(n) => {
                proof {
                    lemma_resolve_valid(self.root.unwrap(), path@, encode_utf8(self.source@));
                }
                match n.span() {
                    Some(s) => Some(slice_str(self.source.as_str(), s.start, s.end)),
                    None => None,
                }
            },
            None => None,
        }
    }

    /// A line/column position for a byte offset into the source, so errors
    /// point at the right place; the offset is snapped back to a character
    /// boundary so this never fails.
    fn position_at(&self, index: usize) -> (p: Position)
        ensures
            p == position_at_spec(self.spec_bytes(), index),
    {
        proof {
            use_type_invariant(self);
            vstd::utf8::encode_utf8_valid_utf8(self.source@);
        }
        let src = self.source.as_str();
        let len = str_byte_len(src);
        let mut i = if index <= len { index } else { len };
        let ghost start_i = i;
        while i > 0 && !src.is_char_boundary(i)
            invariant
                i <= len,
                len == src.spec_bytes().len(),
                snap_boundary(src.spec_bytes(), i as int) == snap_boundary(
                    src.spec_bytes(),
                    start_i as int,
                ),
            decreases i,
        {
            i = i - 1;
        }
        let bytes = src.as_bytes();
        let mut lines: usize = 0;
        let mut cols: usize = 0;
        let mut k: usize = 0;
        while k < i
            invariant
                i <= bytes@.len(),
                bytes@ == src.spec_bytes(),
                bytes@.len() < usize::MAX,
                k <= i,
                lines == count_newlines(bytes@.subrange(0, k as int)),
                cols == chars_after_last_newline(bytes@.subrange(0, k as int)),
            decreases i - k,
        {
            proof {
                let pre = bytes@.subrange(0, k + 1);
                assert(pre.drop_last() =~= bytes@.subrange(0, k as int));
                assert(pre.last() == bytes@[k as int]);
                lemma_counts_bounded(bytes@.subrange(0, k as int));
            }
            let b = bytes[k];
            if b == 10 {
                lines = lines + 1;
                cols = 0;
            } else if !is_continuation(b) {
                cols = cols + 1;
            }
            k = k + 1;
        }
        proof {
            lemma_counts_bounded(bytes@.subrange(0, i as int));
        }
        Position::at(lines + 1, cols + 1, i)
    }
}

} // verus!

verus! {

/// The UTF-8 byte-order mark.
pub open spec fn is_bom_prefix(bytes: Seq<u8>) -> bool {
    bytes.len() >= 3 && bytes[0] == 0xEF && bytes[1] == 0xBB && bytes[2] == 0xBF
}

/// The length of the byte-order mark that `bytes` begins with: 3, or 0
/// when there is none.
pub open spec fn bom_of(bytes: Seq<u8>) -> usize {
    if is_bom_prefix(bytes) {
        3
    } else {
        0
    }
}

/// A leading byte-order mark ends on a character boundary.
proof fn lemma_bom_boundary(bytes: Seq<u8>)
    requires
        valid_utf8(bytes),
    ensures
        is_char_boundary(bytes, bom_of(bytes) as int),
{
    if is_bom_prefix(bytes) {
        assert(vstd::utf8::length_of_first_scalar(bytes) == 3);
        assert(valid_utf8(vstd::utf8::pop_first_scalar(bytes)));
        assert(is_char_boundary(vstd::utf8::pop_first_scalar(bytes), 0));
        assert(is_char_boundary(bytes, 3));
    }
}

/// The length of a leading byte-order mark: 3 bytes, or 0 when absent.
pub fn bom_length(input: &str) -> (n: usize)
    ensures
        n == (if is_bom_prefix(input.spec_bytes()) { 3usize } else { 0usize }),
{
    let b = input.as_bytes();
    if b.len() >= 3 && b[0] == 0xEF && b[1] == 0xBB && b[2] == 0xBF {
        3
    } else {
        0
    }
}

/// The document offsets start at 0, strictly increase, and lie within
/// `bytes` on character boundaries.
pub open spec fn boundaries_ok(b: Seq<usize>, bytes: Seq<u8>) -> bool {
    &&& b.len() >= 1
    &&& b[0] == 0
    &&& forall|i: int| 0 <= i < b.len() - 1 ==> #[trigger] b[i] < b[i + 1]
    &&& forall|i: int| 0 <= i < b.len() ==> #[trigger] b[i] <= bytes.len() && is_char_boundary(bytes, b[i] as int)
}

/// The end of document `i`: the next document's start, or the end of input.
pub open spec fn doc_end(b: Seq<usize>, len: nat, i: int) -> int {
    if i + 1 < b.len() {
        b[i + 1] as int
    } else {
        len as int
    }
}

fn check_boundaries(b: &Vec<usize>, input: &str) -> (r: bool)
    ensures
        r == boundaries_ok(b@, input.spec_bytes()),
{
    let len = str_byte_len(input);
    if b.len() == 0 || b[0] != 0 {
        return false;
    }
    let mut i: usize = 0;
    while i < b.len()
        invariant
            b@.len() >= 1,
            b@[0] == 0,
            len == input.spec_bytes().len(),
            i <= b@.len(),
            forall|j: int| 0 <= j < i && j < b@.len() - 1 ==> #[trigger] b@[j] < b@[j + 1],
            forall|j: int| 0 <= j < i ==> #[trigger] b@[j] <= len && is_char_boundary(input.spec_bytes(), b@[j] as int),
        decreases b@.len() - i,
    {
        if b[i] > len || !input.is_char_boundary(b[i]) {
            return false;
        }
        if i + 1 < b.len() && b[i] >= b[i + 1] {
            return false;
        }
        i = i + 1;
    }
    true
}

fn check_lexeme_offsets(tokens: &[Token], input: &str, bom_len: usize) -> (r: bool)
    ensures
        r == lexeme_offsets_ok(tokens@, input.spec_bytes(), bom_len),
{
    let len = str_byte_len(input);
    let mut i: usize = 0;
    while i < tokens.len()
        invariant
            len == input.spec_bytes().len(),
            i <= tokens@.len(),
            forall|j: int|
                0 <= j < i ==> {
                    &&& #[trigger] tokens@[j].start_position.index + bom_len <= usize::MAX
                    &&& tokens@[j].end_position.index + bom_len <= usize::MAX
                    &&& (tokens@[j].token_type matches TokenType::Scalar(_, QuoteStyle::Plain) ==> {
                        &&& tokens@[j].start_position.index <= tokens@[j].end_position.index
                        &&& tokens@[j].end_position.index + bom_len <= len
                    })
                },
        decreases tokens@.len() - i,
    {
        let t = &tokens[i];
        if t.start_position.index > usize::MAX - bom_len || t.end_position.index > usize::MAX
            - bom_len {
            return false;
        }
        let plain = match &t.token_type {
            TokenType::Scalar(_, QuoteStyle::Plain) => true,
            _ => false,
        };
        if plain && (t.start_position.index > t.end_position.index || t.end_position.index
            + bom_len > len) {
            return false;
        }
        proof {
            assert(tokens@[i as int] == *t);
            assert(plain == (t.token_type matches TokenType::Scalar(_, QuoteStyle::Plain)));
            assert(t.start_position.index + bom_len <= usize::MAX);
            assert(t.end_position.index + bom_len <= usize::MAX);
        }
        i = i + 1;
    }
    true
}

fn check_events_fit(events: &[Event], bom_len: usize) -> (r: bool)
    ensures
        r == events_fit(events@, bom_len),
{
    let mut i: usize = 0;
    while i < events.len()
        invariant
            i <= events@.len(),
            forall|j: int| 0 <= j < i ==> #[trigger] events@[j].position.index + bom_len < usize::MAX,
        decreases events@.len() - i,
    {
        if events[i].position.index >= usize::MAX - bom_len {
            assert(!(events@[i as int].position.index + bom_len < usize::MAX));
            return false;
        }
        i = i + 1;
    }
    true
}

/// `v` in reverse order.
fn reversed<T>(v: Vec<T>) -> (r: Vec<T>)
    ensures
        r@.len() == v@.len(),
        forall|k: int| 0 <= k < v@.len() ==> #[trigger] r@[k] == v@[v@.len() - 1 - k],
{
    let ghost orig = v@;
    let mut rest = v;
    let mut out: Vec<T> = Vec::new();
    while rest.len() > 0
        invariant
            rest@ == orig.subrange(0, rest@.len() as int),
            out@.len() + rest@.len() == orig.len(),
            forall|k: int| 0 <= k < out@.len() ==> #[trigger] out@[k] == orig[orig.len() - 1 - k],
        decreases rest@.len(),
    {
        let x = rest.pop().unwrap();
        proof {
            assert(rest@ =~= orig.subrange(0, rest@.len() as int));
        }
        out.push(x);
    }
    out
}

/// An error reporting an inconsistency between the scanner's, parser's
/// and loader's views of the stream.
fn accounting_error() -> (e: Error)
    ensures
        e.kind == crate::error::ErrorKind::Parse,
        e.position == Position::spec_start(),
        e.message@ == "internal document accounting mismatch"@,
{
    Error::parse(Position::new(), "internal document accounting mismatch")
}

/// The bytes of document `i` of `bytes`, whose documents start at the
/// offsets `bs`: from its start to the next document's start, or to the
/// end for the last.
pub open spec fn doc_piece(bytes: Seq<u8>, bs: Seq<usize>, i: int) -> Seq<u8> {
    bytes.subrange(
        bs[i] as int,
        if i + 1 < bs.len() {
            bs[i + 1] as int
        } else {
            bytes.len() as int
        },
    )
}

/// `t` is the span tree of the root of document `i` of `events`, walked
/// over the lexemes `by_start` and moved `base` bytes toward the start.
pub open spec fn root_from_events(
    events: Seq<Event>,
    by_start: Map<usize, Lexeme>,
    bom: usize,
    i: int,
    base: usize,
    t: SpanNode,
) -> bool {
    exists|tree: SpanNode|
        walk_tree(events, doc_root(events, docs_from(events), i as nat), by_start, bom, tree) && rebased(
            tree,
            t,
            base,
        )
}

/// Every span tree walked for the root of document `i` lies at or past
/// its document's start, and once moved to the start of its piece of
/// `bytes`, lies within that piece on character boundaries.
pub open spec fn doc_tree_fits(
    events: Seq<Event>,
    by_start: Map<usize, Lexeme>,
    bom: usize,
    bytes: Seq<u8>,
    bs: Seq<usize>,
    i: int,
) -> bool {
    forall|t: SpanNode|
        #[trigger] walk_tree(events, doc_root(events, docs_from(events), i as nat), by_start, bom, t) ==> node_above(
            t,
            bs[i],
        ) && forall|u: SpanNode| #[trigger] rebased(t, u, bs[i]) ==> node_valid(u, doc_piece(bytes, bs, i))
}

/// No span tree walked for the root of document `i` both lies past its
/// document's start and moves into its piece of `bytes`.
pub open spec fn doc_tree_misfits(
    events: Seq<Event>,
    by_start: Map<usize, Lexeme>,
    bom: usize,
    bytes: Seq<u8>,
    bs: Seq<usize>,
    i: int,
) -> bool {
    forall|t: SpanNode|
        #[trigger] walk_tree(events, doc_root(events, docs_from(events), i as nat), by_start, bom, t) ==> !(
        node_above(t, bs[i]) && exists|u: SpanNode| #[trigger] rebased(t, u, bs[i]) && node_valid(
            u,
            doc_piece(bytes, bs, i),
        ))
}

/// The offsets of the streams fit: the input leaves room to count past
/// it, and token and event offsets fit once shifted past a leading mark.
pub open spec fn offsets_fit(bytes: Seq<u8>, tokens: Seq<Token>, events: Seq<Event>) -> bool {
    &&& bytes.len() < usize::MAX - 1
    &&& lexeme_offsets_ok(tokens, bytes, bom_of(bytes))
    &&& events_fit(events, bom_of(bytes))
}

/// The streams hold no document with a root node, one value and one
/// document boundary: one empty document.
pub open spec fn no_root_documents(bytes: Seq<u8>, tokens: Seq<Token>, events: Seq<Event>, n_values: nat) -> bool {
    &&& doc_count(events, docs_from(events)) == 0
    &&& n_values == 1
    &&& document_boundaries_spec(tokens, bom_of(bytes), bytes.len() as usize).len() == 1
}

/// As many documents with a root node as values and as document
/// boundaries, and the boundaries increase within `bytes` on character
/// boundaries.
pub open spec fn documents_line_up(bytes: Seq<u8>, tokens: Seq<Token>, events: Seq<Event>, n_values: nat) -> bool {
    let bs = document_boundaries_spec(tokens, bom_of(bytes), bytes.len() as usize);
    &&& doc_count(events, docs_from(events)) == n_values
    &&& bs.len() == n_values
    &&& boundaries_ok(bs, bytes)
}

/// Whether the streams describe one empty document: every check on them
/// passes, the events hold no node, there is one value and one document
/// boundary.
pub open spec fn lone_empty_document(bytes: Seq<u8>, tokens: Seq<Token>, events: Seq<Event>, n_values: nat) -> bool {
    let q = first_root(events);
    &&& bytes.len() < usize::MAX - 1
    &&& lexeme_offsets_ok(tokens, bytes, bom_of(bytes))
    &&& events_fit(events, bom_of(bytes))
    &&& (q >= events.len() || events[q].event_type is StreamEnd)
    &&& n_values == 1
    &&& document_boundaries_spec(tokens, bom_of(bytes), bytes.len() as usize).len() == 1
}

impl RoundTripDocument {
    /// Build the documents of a stream from its source text and the
    /// scanner's tokens, parser's events and loader's values for that text
    /// (with any leading byte-order mark removed).
    ///
    /// Each document owns its exact byte slice of the input; concatenating
    /// the documents' sources reproduces the input.
    pub fn from_streams(input: &str, tokens: &[Token], events: &[Event], values: Vec<Value>) -> (r:
        Result<Vec<RoundTripDocument>>)
        ensures
            r matches Ok(docs) ==> docs@.len() >= 1 && concat_sources(docs@) == input@,
            input.spec_bytes().len() >= usize::MAX - 1 ==> r is Err,
            !lexeme_offsets_ok(tokens@, input.spec_bytes(), bom_of(input.spec_bytes())) ==> r is Err,
            !events_fit(events@, bom_of(input.spec_bytes())) ==> r is Err,
            lone_empty_document(input.spec_bytes(), tokens@, events@, values@.len()) ==> (r matches Ok(docs) && docs@.len() == 1 && docs@[0].spec_value() == Value::Null
                && docs@[0].spec_root() is None),
            document_boundaries_spec(tokens@, bom_of(input.spec_bytes()), input.spec_bytes().len() as usize).len()
                != values@.len() ==> r is Err,
            !offsets_fit(input.spec_bytes(), tokens@, events@) ==> r is Err,
            offsets_fit(input.spec_bytes(), tokens@, events@) && no_root_documents(
                input.spec_bytes(),
                tokens@,
                events@,
                values@.len(),
            ) ==> r is Ok,
            offsets_fit(input.spec_bytes(), tokens@, events@) && !no_root_documents(
                input.spec_bytes(),
                tokens@,
                events@,
                values@.len(),
            ) && !documents_line_up(input.spec_bytes(), tokens@, events@, values@.len()) ==> r is Err,
            offsets_fit(input.spec_bytes(), tokens@, events@) && !no_root_documents(
                input.spec_bytes(),
                tokens@,
                events@,
                values@.len(),
            ) && documents_line_up(input.spec_bytes(), tokens@, events@, values@.len()) ==> ({
                let bytes = input.spec_bytes();
                let bom = bom_of(bytes);
                let ls = lexemes_spec(tokens@, bytes, bom);
                let bs = document_boundaries_spec(tokens@, bom, bytes.len() as usize);
                &&& (forall|i: int| 0 <= i < values@.len() ==> doc_tree_fits(events@, ls, bom, bytes, bs, i)) ==> r is Ok
                &&& (exists|i: int| 0 <= i < values@.len() && doc_tree_misfits(events@, ls, bom, bytes, bs, i))
                    ==> r is Err
            }),
            r matches Ok(docs) ==> {
                let bs = document_boundaries_spec(
                    tokens@,
                    bom_of(input.spec_bytes()),
                    input.spec_bytes().len() as usize,
                );
                &&& docs@.len() == values@.len() == bs.len()
                &&& forall|i: int|
                    0 <= i < docs@.len() ==> (#[trigger] docs@[i]).spec_bytes() == doc_piece(input.spec_bytes(), bs, i)
                        && (docs@[i].spec_root() is Some ==> docs@[i].spec_value() == values@[i])
                        && (docs@[i].spec_root() is None ==> docs@.len() == 1 && docs@[i].spec_value()
                        == Value::Null)
            },
            r matches Ok(docs) ==> forall|i: int|
                0 <= i < docs@.len() ==> ((#[trigger] docs@[i]).spec_root() matches Some(t) ==> docs@.len()
                    == doc_count(events@, docs_from(events@)) && root_from_events(
                    events@,
                    lexemes_spec(tokens@, input.spec_bytes(), bom_of(input.spec_bytes())),
                    bom_of(input.spec_bytes()),
                    i,
                    document_boundaries_spec(
                        tokens@,
                        bom_of(input.spec_bytes()),
                        input.spec_bytes().len() as usize,
                    )[i],
                    t,
                )),
    {
        let ghost vals = values@;
        let len = str_byte_len(input);
        if len >= usize::MAX - 1 {
            return Err(accounting_error());
        }
        let bom_len = bom_length(input);
        proof {
            vstd::utf8::encode_utf8_valid_utf8(input@);
            lemma_bom_boundary(input.spec_bytes());
        }
        if !input.is_char_boundary(bom_len) {
            return Err(accounting_error());
        }
        if !check_lexeme_offsets(tokens, input, bom_len) {
            return Err(accounting_error());
        }
        if !check_events_fit(events, bom_len) {
            return Err(accounting_error());
        }
        proof {
            assert forall|i: int| 0 <= i < tokens@.len() implies #[trigger] tokens@[i].start_position.index + bom_len <= usize::MAX by {
                assert(lexeme_offsets_ok(tokens@, input.spec_bytes(), bom_len));
            }
        }
        let lexemes = LexemeIndex::build(tokens, input, bom_len);
        let boundaries = document_boundaries(tokens, bom_len, len);
        let trees = document_trees(events, &lexemes, bom_len);
        proof {
            lemma_encode_injective(input@, input@);
            vstd::utf8::encode_utf8_valid_utf8(input@);
        }
        proof {
            lemma_document_boundaries(tokens@, bom_len, len);
        }
        if trees.len() == 0 && values.len() == 1 && boundaries.len() == 1 {
            let mut docs: Vec<RoundTripDocument> = Vec::new();
            let doc = RoundTripDocument { source: input.to_owned(), value: Value::Null, root: None };
            docs.push(doc);
            proof {
                assert(docs@.drop_last() =~= Seq::<RoundTripDocument>::empty());
                assert(concat_sources(docs@.drop_last()) =~= Seq::<char>::empty());
                assert(concat_sources(docs@) =~= input@);
            }
            return Ok(docs);
        }
        if boundaries.len() != trees.len() || trees.len() != values.len() {
            return Err(accounting_error());
        }
        if !check_boundaries(&boundaries, input) {
            return Err(accounting_error());
        }
        let n = trees.len();
        let ghost lone = lone_empty_document(input.spec_bytes(), tokens@, events@, values@.len());
        assert(!lone);
        let ghost bytes = input.spec_bytes();
        let ghost bs = boundaries@;
        let ghost trs = trees@;
        let mut rev_trees = reversed(trees);
        let mut rev_values = reversed(values);
        let mut docs: Vec<RoundTripDocument> = Vec::new();
        let mut i: usize = 0;
        while i < n
            invariant
                !lone,
                lone == lone_empty_document(input.spec_bytes(), tokens@, events@, values@.len()),
                vals == values@,
                vals.len() == n,
                trs.len() == n,
                forall|k: int| 0 <= k < rev_values@.len() ==> #[trigger] rev_values@[k] == vals[n - 1 - k],
                forall|k: int| 0 <= k < rev_trees@.len() ==> #[trigger] rev_trees@[k] == trs[n - 1 - k],
                bs == document_boundaries_spec(tokens@, bom_of(input.spec_bytes()), len),
                forall|j: int|
                    0 <= j < i ==> (#[trigger] docs@[j]).spec_value() == vals[j] && docs@[j].spec_bytes()
                        == doc_piece(bytes, bs, j) && docs@[j].spec_root() is Some,
                trs.len() == doc_count(events@, docs_from(events@)),
                forall|j: int|
                    0 <= j < n ==> walk_tree(
                        events@,
                        doc_root(events@, docs_from(events@), j as nat),
                        lexemes.by_start@,
                        bom_len,
                        #[trigger] trs[j],
                    ),
                lexemes.by_start@ == lexemes_spec(tokens@, input.spec_bytes(), bom_len),
                bom_len == bom_of(input.spec_bytes()),
                forall|j: int|
                    0 <= j < i ==> ((#[trigger] docs@[j]).spec_root() matches Some(t) && root_from_events(
                        events@,
                        lexemes.by_start@,
                        bom_len,
                        j,
                        bs[j],
                        t,
                    )),
                n == bs.len(),
                bs == boundaries@,
                boundaries_ok(bs, bytes),
                forall|j: int| 0 <= j < i ==> !#[trigger] doc_tree_misfits(events@, lexemes.by_start@, bom_len, bytes, bs, j),
                bytes == input.spec_bytes(),
                bytes.len() == len,
                len < usize::MAX - 1,
                rev_trees@.len() == n - i,
                rev_values@.len() == n - i,
                docs@.len() == i,
                i <= n,
                encode_utf8(concat_sources(docs@)) == bytes.subrange(
                    0,
                    if i < n {
                        bs[i as int] as int
                    } else {
                        len as int
                    },
                ),
            decreases n - i,
        {
            let tree = rev_trees.pop().unwrap();
            let value = rev_values.pop().unwrap();
            let start = boundaries[i];
            let end = if i + 1 < n {
                boundaries[i + 1]
            } else {
                len
            };
            proof {
                assert(bs[i as int] <= len && is_char_boundary(bytes, bs[i as int] as int));
                if i + 1 < n {
                    assert(bs[i as int] < bs[i + 1]);
                    assert(bs[i + 1] <= len && is_char_boundary(bytes, bs[i + 1] as int));
                } else {
                    vstd::utf8::encode_utf8_valid_utf8(input@);
                    lemma_boundary_by_byte(bytes, len as int);
                }
            }
            proof {
                assert(tree == trs[i as int]);
                assert(walk_tree(events@, doc_root(events@, docs_from(events@), i as nat), lexemes.by_start@, bom_len, tree));
            }
            if !check_node_above(&tree, start) {
                proof {
                    assert(!doc_tree_fits(events@, lexemes.by_start@, bom_len, bytes, bs, i as int));
                }
                return Err(accounting_error());
            }
            let ghost tree0 = tree;
            let rebased_tree = rebase_node(tree, start);
            let piece = slice_str(input, start, end);
            let source = piece.to_owned();
            proof {
                assert(piece.spec_bytes() == doc_piece(bytes, bs, i as int));
            }
            if !check_node_valid(&rebased_tree, source.as_str()) {
                proof {
                    assert(rebased(tree0, rebased_tree, bs[i as int]));
                    assert(!doc_tree_fits(events@, lexemes.by_start@, bom_len, bytes, bs, i as int));
                }
                return Err(accounting_error());
            }
            proof {
                assert(rebased(tree0, rebased_tree, bs[i as int]));
                assert(!doc_tree_misfits(events@, lexemes.by_start@, bom_len, bytes, bs, i as int));
            }
            let doc = RoundTripDocument { source, value, root: Some(rebased_tree) };
            let ghost old_docs = docs@;
            docs.push(doc);
            proof {
                assert(tree0 == trs[i as int]);
                assert(root_from_events(events@, lexemes.by_start@, bom_len, i as int, bs[i as int], rebased_tree));
                assert forall|j: int|
                    0 <= j < i + 1 implies ((#[trigger] docs@[j]).spec_root() matches Some(t) && root_from_events(
                        events@,
                        lexemes.by_start@,
                        bom_len,
                        j,
                        bs[j],
                        t,
                    )) by {
                    if j < i {
                        assert(docs@[j] == old_docs[j]);
                    }
                }
                assert(docs@[i as int].spec_bytes() == doc_piece(bytes, bs, i as int));
                assert forall|j: int|
                    0 <= j < i + 1 implies (#[trigger] docs@[j]).spec_value() == vals[j] && docs@[j].spec_bytes()
                        == doc_piece(bytes, bs, j) && docs@[j].spec_root() is Some by {
                    if j < i {
                        assert(docs@[j] == old_docs[j]);
                    }
                }
            }
            proof {
                assert(docs@.drop_last() =~= old_docs);
                assert(docs@.last().spec_source() == piece@);
                lemma_encode_concat(concat_sources(old_docs), piece@);
                assert(bytes.subrange(0, start as int) + bytes.subrange(start as int, end as int)
                    =~= bytes.subrange(0, end as int));
            }
            i = i + 1;
        }
        proof {
            assert(bytes.subrange(0, len as int) =~= bytes);
            lemma_encode_injective(concat_sources(docs@), input@);
        }
        Ok(docs)
    }
}

/// The span lies within `bytes` and starts and ends on character
/// boundaries.
pub open spec fn span_fits(bytes: Seq<u8>, s: Span) -> bool {
    &&& s.start <= s.end <= bytes.len()
    &&& is_char_boundary(bytes, s.start as int)
    &&& is_char_boundary(bytes, s.end as int)
}

/// `bytes` with the range of `s` replaced by `with`.
pub open spec fn spliced(bytes: Seq<u8>, s: Span, with: Seq<u8>) -> Seq<u8> {
    bytes.subrange(0, s.start as int) + with + bytes.subrange(s.end as int, bytes.len() as int)
}

/// Text of nothing but spaces, tabs and line breaks, short enough for
/// every offset into it to fit in `usize`.
pub open spec fn blank_text(cs: Seq<char>) -> bool {
    &&& blank_rest(cs, 0)
    &&& cs.len() + 16 < usize::MAX
    &&& encode_utf8(cs).len() + 8 < usize::MAX
}

/// Whether `bytes` encode blank text ([`blank_text`]).
pub open spec fn blank_bytes(bytes: Seq<u8>) -> bool {
    exists|t: Seq<char>| encode_utf8(t) == bytes && blank_text(t)
}

/// Blank text does not begin with a byte-order mark.
proof fn lemma_blank_not_bom(cs: Seq<char>)
    requires
        blank_rest(cs, 0),
    ensures
        !is_bom_prefix(encode_utf8(cs)),
{
    if cs.len() > 0 {
        let c = cs[0];
        assert(c == ' ' || c == '\t' || c == '\r' || c == '\n');
        let v = c as u32;
        assert(v & 0x7F <= 0x7F) by (bit_vector);
        assert(encode_utf8(cs)[0] == encode_scalar(v)[0]);
    }
}

/// `docs` are the documents of the text whose bytes are `bytes`, built
/// from the tokens, events and values of that text: the stream scans to
/// `tokens` (each within the text past a leading mark, the last one the
/// stream end at the end of the text), parses to `events` (a stream start first, a stream end
/// last), and composes to `values` (each document's root composed with
/// the standard resolver, [`composed`]); and, as
/// [`RoundTripDocument::from_streams`] states, one document per value and
/// per document boundary, each holding its piece of the bytes, its value,
/// and the span tree walked for its root.
pub open spec fn stream_documents(
    bytes: Seq<u8>,
    tokens: Seq<Token>,
    events: Seq<Event>,
    values: Seq<Value>,
    docs: Seq<RoundTripDocument>,
) -> bool {
    let bom = bom_of(bytes);
    let bs = document_boundaries_spec(tokens, bom, bytes.len() as usize);
    &&& tokens.len() > 0
    &&& tokens.last().token_type is StreamEnd
    &&& tokens.last().start_position.index + bom == bytes.len()
    &&& forall|k: int| 0 <= k < tokens.len() ==> token_within(#[trigger] tokens[k], (bytes.len() - bom) as usize)
    &&& events.len() >= 2
    &&& events[0].event_type is StreamStart
    &&& events.last().event_type is StreamEnd
    &&& forall|i: int|
        0 <= i < cdoc_count(events, 1) ==> composed(
            events,
            cdoc_at(events, 1, i as nat) + 1,
            crate::resolver::standard_map(),
            #[trigger] values[i],
        )
    &&& docs.len() == values.len() == bs.len()
    &&& forall|i: int|
        0 <= i < docs.len() ==> (#[trigger] docs[i]).spec_bytes() == doc_piece(bytes, bs, i) && (docs[i].spec_root() is Some
            ==> docs[i].spec_value() == values[i]) && (docs[i].spec_root() is None ==> docs.len() == 1
            && docs[i].spec_value() == Value::Null)
    &&& forall|i: int|
        0 <= i < docs.len() ==> ((#[trigger] docs[i]).spec_root() matches Some(t) ==> docs.len() == doc_count(
            events,
            docs_from(events),
        ) && root_from_events(events, lexemes_spec(tokens, bytes, bom), bom, i, bs[i], t))
}

/// Scan text into its tokens.
fn drain_tokens(input: &str) -> (r: Result<Vec<Token>>)
    ensures
        r matches Ok(tokens) ==> tokens@.len() > 0 && tokens@.last().token_type is StreamEnd,
        blank_rest(input@, 0) && input@.len() + 16 < usize::MAX && input.spec_bytes().len() + 8 < usize::MAX
            ==> (r matches Ok(tokens) && tokens@.len() == 2 && tokens@[0].token_type is StreamStart),
        r matches Ok(tokens) ==> forall|k: int| 0 <= k < tokens@.len() ==> token_within(#[trigger] tokens@[k], input.spec_bytes().len() as usize),
        r matches Ok(tokens) ==> tokens@.last().start_position.index == input.spec_bytes().len(),
{
    crate::scanner::tokenize::scan_tokens(input)
}

/// Parse text into its events.
fn drain_events(tokens: &[Token]) -> (r: Result<Vec<Event>>)
    ensures
        r matches Ok(events) ==> events@.len() >= 2 && events@[0].event_type is StreamStart
            && events@.last().event_type is StreamEnd,
        ({
            let ts = code_tokens(tokens@);
            ts.len() == 2 && ts[0].token_type is StreamStart && ts[1].token_type is StreamEnd ==> (r matches Ok(events)
                && events@ == seq![
                Event { event_type: EventType::StreamStart, position: ts[0].start_position },
                Event { event_type: EventType::StreamEnd, position: ts[1].start_position },
            ])
        }),
{
    crate::parser::parse::parse_events(tokens)
}

impl RoundTripDocument {
    /// Parse a (possibly multi-document) YAML stream.
    ///
    /// Each document owns its exact byte slice of the input; concatenating
    /// every document's source reproduces the input. Leading trivia (a
    /// byte-order mark, comments, directives) belongs to the first
    /// document; trivia after a document stays with it until the next
    /// `---` marker or content begins. An error when the input is not
    /// valid YAML.
    pub fn parse_all(input: &str) -> (r: Result<Vec<RoundTripDocument>>)
        ensures
            r matches Ok(docs) ==> docs@.len() >= 1 && concat_sources(docs@) == input@,
            blank_text(input@) ==> (r matches Ok(docs) && docs@.len() == 1 && docs@[0].spec_value()
                == Value::Null && docs@[0].spec_root() is None),
            r matches Ok(docs) ==> exists|tokens: Seq<Token>, events: Seq<Event>, values: Seq<Value>|
                #[trigger] stream_documents(input.spec_bytes(), tokens, events, values, docs@),
    {
        let len = str_byte_len(input);
        let bom_len = bom_length(input);
        proof {
            vstd::utf8::encode_utf8_valid_utf8(input@);
            lemma_bom_boundary(input.spec_bytes());
        }
        if !str_is_char_boundary(input, bom_len) || bom_len > len {
            return Err(Error::parse(Position::new(), "malformed byte-order mark"));
        }
        proof {
            vstd::utf8::encode_utf8_valid_utf8(input@);
            vstd::utf8::is_char_boundary_start_end_of_seq(input.spec_bytes());
        }
        let scanned = slice_str(input, bom_len, len);
        proof {
            if blank_text(input@) {
                lemma_blank_not_bom(input@);
                assert(scanned.spec_bytes() =~= input.spec_bytes());
                lemma_encode_injective(scanned@, input@);
            }
        }
        let tokens = drain_tokens(scanned)?;
        proof {
            if blank_text(input@) {
                reveal_with_fuel(Seq::filter, 3);
                assert(code_tokens(tokens@) =~= tokens@);
            }
        }
        let events = drain_events(tokens.as_slice())?;
        let values = crate::compose::compose_events(events.as_slice())?;
        let ghost gvals = values@;
        proof {
            if blank_text(input@) {
                let bytes = input.spec_bytes();
                assert(events@[0].event_type is StreamStart);
                assert(events@[1].event_type is StreamEnd);
                assert(first_root(events@) == 1);
                assert(token_within(tokens@[0], len) && token_within(tokens@[1], len));
                assert(events_fit(events@, bom_of(bytes)));
                assert(lexeme_offsets_ok(tokens@, bytes, bom_of(bytes)));
                reveal_with_fuel(boundary_scan, 3);
                reveal_with_fuel(Seq::filter, 3);
                reveal_with_fuel(dedup_seq, 3);
                assert(boundary_scan(tokens@, 0).boundaries =~= seq![0usize]);
                assert(seq![0usize].filter(|b: usize| b <= len) =~= seq![0usize]);
                assert(document_boundaries_spec(tokens@, bom_of(bytes), len) =~= seq![0usize]);
                assert(lone_empty_document(bytes, tokens@, events@, values@.len()));
            }
        }
        let r = Self::from_streams(input, tokens.as_slice(), events.as_slice(), values);
        proof {
            assert(scanned.spec_bytes().len() + bom_len == input.spec_bytes().len());
            if r is Ok {
                assert(stream_documents(input.spec_bytes(), tokens@, events@, gvals, r->Ok_0@));
            }
        }
        r
    }

    /// Parse a string holding exactly one YAML document; its source is the
    /// input, byte for byte. An error when the input is not valid YAML or
    /// holds more than one document.
    pub fn parse(input: &str) -> (r: Result<RoundTripDocument>)
        ensures
            r matches Ok(doc) ==> doc.spec_source() == input@,
            blank_text(input@) ==> (r matches Ok(doc) && doc.spec_value() == Value::Null && doc.spec_root() is None),
            r matches Ok(doc) ==> exists|tokens: Seq<Token>, events: Seq<Event>, values: Seq<Value>|
                #[trigger] stream_documents(input.spec_bytes(), tokens, events, values, seq![doc]),
    {
        let docs = Self::parse_all(input)?;
        let ghost all = docs@;
        let r = Self::single_document(docs);
        proof {
            if r is Ok {
                assert(seq![all[0]] =~= all);
                assert(all.drop_last() =~= Seq::<RoundTripDocument>::empty());
                assert(concat_sources(all.drop_last()) =~= Seq::<char>::empty());
                assert(concat_sources(all) =~= all[0].spec_source());
            }
        }
        r
    }

    /// The one document of a parsed stream: an error, counting the
    /// documents, when the stream holds more or fewer than one.
    pub fn single_document(docs: Vec<RoundTripDocument>) -> (r: Result<RoundTripDocument>)
        ensures
            docs@.len() == 1 ==> r == Ok::<RoundTripDocument, Error>(docs@[0]),
            docs@.len() != 1 ==> (r matches Err(e) && e.kind == crate::error::ErrorKind::Value && e.message@
                == "expected a single YAML document, found "@ + spec_decimal(docs@.len() as nat)
                + "; use parse_all for streams"@),
    {
        let mut docs = docs;
        let n = docs.len();
        if n != 1 {
            let mut msg = String::new();
            push_str(&mut msg, "expected a single YAML document, found ");
            let count = usize_to_decimal(n);
            push_str(&mut msg, count.as_str());
            push_str(&mut msg, "; use parse_all for streams");
            return Err(Error::value_error(Position::new(), msg));
        }
        let doc = docs.pop().unwrap();
        Ok(doc)
    }

    /// Splice `replacement` over the byte range `span`, leaving every other
    /// byte untouched, then re-validate. On failure the document is left
    /// unchanged: when the span is out of bounds or not on character
    /// boundaries, or when the spliced text no longer parses as a single
    /// document.
    pub fn replace_span(&mut self, span: Span, replacement: &str) -> (r: Result<()>)
        ensures
            !span_fits(old(self).spec_bytes(), span) ==> r is Err,
            r is Err ==> *final(self) == *old(self),
            r is Ok ==> final(self).spec_bytes() == spliced(
                old(self).spec_bytes(),
                span,
                replacement.spec_bytes(),
            ),
            span_fits(old(self).spec_bytes(), span) && blank_bytes(
                spliced(old(self).spec_bytes(), span, replacement.spec_bytes()),
            ) ==> r is Ok,
            r is Ok ==> exists|tokens: Seq<Token>, events: Seq<Event>, values: Seq<Value>|
                #[trigger] stream_documents(final(self).spec_bytes(), tokens, events, values, seq![*final(self)]),
    {
        proof {
            use_type_invariant(&*self);
            vstd::utf8::encode_utf8_valid_utf8(self.source@);
        }
        let src = self.source.as_str();
        let len = str_byte_len(src);
        if span.start > span.end || span.end > len || !str_is_char_boundary(src, span.start)
            || !str_is_char_boundary(src, span.end) {
            let at = if span.start < len {
                span.start
            } else {
                len
            };
            let pos = self.position_at(at);
            let mut msg = String::new();
            push_str(&mut msg, "replace_span range ");
            let a = usize_to_decimal(span.start);
            push_str(&mut msg, a.as_str());
            push_str(&mut msg, "..");
            let b = usize_to_decimal(span.end);
            push_str(&mut msg, b.as_str());
            push_str(&mut msg, " is out of bounds or not on character boundaries");
            return Err(Error::value_error(pos, msg));
        }
        proof {
            vstd::utf8::is_char_boundary_start_end_of_seq(src.spec_bytes());
        }
        let head = slice_str(src, 0, span.start);
        let tail = slice_str(src, span.end, len);
        let mut next = String::new();
        push_str(&mut next, head);
        push_str(&mut next, replacement);
        push_str(&mut next, tail);
        proof {
            lemma_encode_concat(head@, replacement@);
            lemma_encode_concat(head@ + replacement@, tail@);
            assert(next@ =~= head@ + replacement@ + tail@);
        }
        proof {
            if blank_bytes(encode_utf8(next@)) {
                let t = choose|t: Seq<char>| encode_utf8(t) == encode_utf8(next@) && blank_text(t);
                lemma_encode_injective(t, next@);
            }
        }
        let doc = Self::parse(next.as_str())?;
        *self = doc;
        Ok(())
    }

    /// Replace the node at `path` with a YAML `fragment`, spliced verbatim
    /// (not quoted, indented or otherwise reformatted): every byte outside
    /// the node's span is kept. On failure the document is left unchanged:
    /// when the path does not resolve, when it addresses a node without
    /// source bytes of its own, or when the result no longer parses.
    pub fn set(&mut self, path: &[PathSegment], fragment: &str) -> (r: Result<()>)
        ensures
            doc_span_of(old(self).spec_root(), path@) is None ==> r is Err,
            r is Err ==> *final(self) == *old(self),
            r is Ok ==> final(self).spec_bytes() == spliced(
                old(self).spec_bytes(),
                doc_span_of(old(self).spec_root(), path@).unwrap(),
                fragment.spec_bytes(),
            ),
            r is Ok ==> exists|tokens: Seq<Token>, events: Seq<Event>, values: Seq<Value>|
                #[trigger] stream_documents(final(self).spec_bytes(), tokens, events, values, seq![*final(self)]),
            doc_span_of(old(self).spec_root(), path@) matches Some(s) && span_fits(old(self).spec_bytes(), s)
                && blank_bytes(
                spliced(old(self).spec_bytes(), s, fragment.spec_bytes()),
            ) ==> r is Ok,
    {
        let span = match self.resolve(path) {
            Some(node) => match node.span() {
                Some(s) => s,
                None => {
                    let mut msg = String::new();
                    push_str(&mut msg, "path ");
                    let p = fmt_path(path);
                    push_str(&mut msg, p.as_str());
                    push_str(
                        &mut msg,
                        " resolves to a node without its own source bytes (implicit null, merge-key entry, or alias-expanded content)",
                    );
                    return Err(Error::value_error(Position::new(), msg));
                },
            },
            None => {
                let mut msg = String::new();
                push_str(&mut msg, "path ");
                let p = fmt_path(path);
                push_str(&mut msg, p.as_str());
                push_str(&mut msg, " does not resolve in this document");
                return Err(Error::value_error(Position::new(), msg));
            },
        };
        self.replace_span(span, fragment)
    }
}

/// Replacing a span with the bytes it already holds changes nothing.
pub proof fn lemma_splice_identity(bytes: Seq<u8>, s: Span)
    requires
        s.start <= s.end <= bytes.len(),
    ensures
        spliced(bytes, s, bytes.subrange(s.start as int, s.end as int)) == bytes,
{
    assert(spliced(bytes, s, bytes.subrange(s.start as int, s.end as int)) =~= bytes);
}

/// A splice is surgical: the bytes before the span stay in front, the
/// replacement follows, and the bytes after the span come last.
pub proof fn lemma_splice_parts(bytes: Seq<u8>, s: Span, with: Seq<u8>)
    requires
        s.start <= s.end <= bytes.len(),
    ensures
        ({
            let r = spliced(bytes, s, with);
            let mid = s.start + with.len();
            &&& r.len() == bytes.len() - (s.end - s.start) + with.len()
            &&& r.subrange(0, s.start as int) == bytes.subrange(0, s.start as int)
            &&& r.subrange(s.start as int, mid) == with
            &&& r.subrange(mid, r.len() as int) == bytes.subrange(s.end as int, bytes.len() as int)
        }),
{
    let r = spliced(bytes, s, with);
    let mid = s.start + with.len();
    assert(r.subrange(0, s.start as int) =~= bytes.subrange(0, s.start as int));
    assert(r.subrange(s.start as int, mid) =~= with);
    assert(r.subrange(mid, r.len() as int) =~= bytes.subrange(s.end as int, bytes.len() as int));
}

} // verus!
