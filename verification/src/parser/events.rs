//! YAML event definitions.

use crate::position::Position;
use crate::text::push_str;
use vstd::prelude::*;

verus! {

/// A YAML parsing event and the position where it occurred.
#[derive(Debug, Clone, PartialEq, Eq)]
pub struct Event {
    /// The type of event.
    pub event_type: EventType,
    /// Position where the event occurred.
    pub position: Position,
}

/// Types of YAML parsing events.
#[derive(Debug, Clone, PartialEq, Eq)]
pub enum EventType {
    /// Start of stream.
    StreamStart,
    /// End of stream.
    StreamEnd,
    /// Document start.
    DocumentStart {
        /// YAML version.
        version: Option<(u8, u8)>,
        /// Tag directives.
        tags: Vec<(String, String)>,
        /// Implicit document start.
        implicit: bool,
    },
    /// Document end.
    DocumentEnd {
        /// Implicit document end.
        implicit: bool,
    },
    /// Scalar value.
    Scalar {
        /// Anchor name.
        anchor: Option<String>,
        /// Tag.
        tag: Option<String>,
        /// Value.
        value: String,
        /// Plain style (unquoted).
        plain_implicit: bool,
        /// Quoted style implicit.
        quoted_implicit: bool,
        /// Style.
        style: ScalarStyle,
    },
    /// Sequence start.
    SequenceStart {
        /// Anchor name.
        anchor: Option<String>,
        /// Tag.
        tag: Option<String>,
        /// Flow style.
        flow_style: bool,
    },
    /// Sequence end.
    SequenceEnd,
    /// Mapping start.
    MappingStart {
        /// Anchor name.
        anchor: Option<String>,
        /// Tag.
        tag: Option<String>,
        /// Flow style.
        flow_style: bool,
    },
    /// Mapping end.
    MappingEnd,
    /// Alias reference.
    Alias {
        /// Anchor name being referenced.
        anchor: String,
    },
}

/// Scalar representation styles.
#[derive(Debug, Clone, Copy, PartialEq, Eq, Structural)]
pub enum ScalarStyle {
    /// Plain style (no quotes).
    Plain,
    /// Single quoted.
    SingleQuoted,
    /// Double quoted.
    DoubleQuoted,
    /// Literal style (|).
    Literal,
    /// Folded style (>).
    Folded,
}

impl ScalarStyle {
    /// The variant's name, as `{:?}` spells it.
    pub open spec fn spec_debug_name(self) -> Seq<char> {
        match self {
            ScalarStyle::Plain => "Plain"@,
            ScalarStyle::SingleQuoted => "SingleQuoted"@,
            ScalarStyle::DoubleQuoted => "DoubleQuoted"@,
            ScalarStyle::Literal => "Literal"@,
            ScalarStyle::Folded => "Folded"@,
        }
    }

    /// The style's name in prose ("plain", "single-quoted", ...).
    pub open spec fn spec_display(self) -> Seq<char> {
        match self {
            ScalarStyle::Plain => "plain"@,
            ScalarStyle::SingleQuoted => "single-quoted"@,
            ScalarStyle::DoubleQuoted => "double-quoted"@,
            ScalarStyle::Literal => "literal"@,
            ScalarStyle::Folded => "folded"@,
        }
    }

    /// The variant's name ("Plain", "SingleQuoted", ...).
    pub fn debug_name(&self) -> (s: &'static str)
        ensures
            s@ == self.spec_debug_name(),
    {
        match self {
            ScalarStyle::Plain => "Plain",
            ScalarStyle::SingleQuoted => "SingleQuoted",
            ScalarStyle::DoubleQuoted => "DoubleQuoted",
            ScalarStyle::Literal => "Literal",
            ScalarStyle::Folded => "Folded",
        }
    }

    /// The style's name in prose ("plain", "single-quoted", ...).
    pub fn to_string(&self) -> (s: String)
        ensures
            s@ == self.spec_display(),
    {
        let mut out = String::new();
        match self {
            ScalarStyle::Plain => push_str(&mut out, "plain"),
            ScalarStyle::SingleQuoted => push_str(&mut out, "single-quoted"),
            ScalarStyle::DoubleQuoted => push_str(&mut out, "double-quoted"),
            ScalarStyle::Literal => push_str(&mut out, "literal"),
            ScalarStyle::Folded => push_str(&mut out, "folded"),
        }
        out
    }
}

impl Event {
    /// Create a new event.
    pub fn new(event_type: EventType, position: Position) -> (e: Event)
        ensures
            e == (Event { event_type, position }),
    {
        Event { event_type, position }
    }

    /// Create a stream start event.
    pub fn stream_start(position: Position) -> (e: Event)
        ensures
            e == (Event { event_type: EventType::StreamStart, position }),
    {
        Self::new(EventType::StreamStart, position)
    }

    /// Create a stream end event.
    pub fn stream_end(position: Position) -> (e: Event)
        ensures
            e == (Event { event_type: EventType::StreamEnd, position }),
    {
        Self::new(EventType::StreamEnd, position)
    }

    /// Create a document start event.
    pub fn document_start(
        position: Position,
        version: Option<(u8, u8)>,
        tags: Vec<(String, String)>,
        implicit: bool,
    ) -> (e: Event)
        ensures
            e == (Event { event_type: EventType::DocumentStart { version, tags, implicit }, position }),
    {
        Self::new(EventType::DocumentStart { version, tags, implicit }, position)
    }

    /// Create a document end event.
    pub fn document_end(position: Position, implicit: bool) -> (e: Event)
        ensures
            e == (Event { event_type: EventType::DocumentEnd { implicit }, position }),
    {
        Self::new(EventType::DocumentEnd { implicit }, position)
    }

    /// Create a scalar event.
    pub fn scalar(
        position: Position,
        anchor: Option<String>,
        tag: Option<String>,
        value: String,
        plain_implicit: bool,
        quoted_implicit: bool,
        style: ScalarStyle,
    ) -> (e: Event)
        ensures
            e == (Event {
                event_type: EventType::Scalar {
                    anchor,
                    tag,
                    value,
                    plain_implicit,
                    quoted_implicit,
                    style,
                },
                position,
            }),
    {
        Self::new(
            EventType::Scalar { anchor, tag, value, plain_implicit, quoted_implicit, style },
            position,
        )
    }

    /// Create a sequence start event.
    pub fn sequence_start(
        position: Position,
        anchor: Option<String>,
        tag: Option<String>,
        flow_style: bool,
    ) -> (e: Event)
        ensures
            e == (Event { event_type: EventType::SequenceStart { anchor, tag, flow_style }, position }),
    {
        Self::new(EventType::SequenceStart { anchor, tag, flow_style }, position)
    }

    /// Create a sequence end event.
    pub fn sequence_end(position: Position) -> (e: Event)
        ensures
            e == (Event { event_type: EventType::SequenceEnd, position }),
    {
        Self::new(EventType::SequenceEnd, position)
    }

    /// Create a mapping start event.
    pub fn mapping_start(
        position: Position,
        anchor: Option<String>,
        tag: Option<String>,
        flow_style: bool,
    ) -> (e: Event)
        ensures
            e == (Event { event_type: EventType::MappingStart { anchor, tag, flow_style }, position }),
    {
        Self::new(EventType::MappingStart { anchor, tag, flow_style }, position)
    }

    /// Create a mapping end event.
    pub fn mapping_end(position: Position) -> (e: Event)
        ensures
            e == (Event { event_type: EventType::MappingEnd, position }),
    {
        Self::new(EventType::MappingEnd, position)
    }

    /// Create an alias event.
    pub fn alias(position: Position, anchor: String) -> (e: Event)
        ensures
            e == (Event { event_type: EventType::Alias { anchor }, position }),
    {
        Self::new(EventType::Alias { anchor }, position)
    }

    /// Whether this starts a collection (sequence or mapping).
    pub fn is_collection_start(&self) -> (b: bool)
        ensures
            b == (self.event_type is SequenceStart || self.event_type is MappingStart),
    {
        match &self.event_type {
            EventType::SequenceStart { .. } | EventType::MappingStart { .. } => true,
            _ => false,
        }
    }

    /// Whether this ends a collection (sequence or mapping).
    pub fn is_collection_end(&self) -> (b: bool)
        ensures
            b == (self.event_type is SequenceEnd || self.event_type is MappingEnd),
    {
        match &self.event_type {
            EventType::SequenceEnd | EventType::MappingEnd => true,
            _ => false,
        }
    }

    /// Whether this is a document boundary (start or end).
    pub fn is_document_boundary(&self) -> (b: bool)
        ensures
            b == (self.event_type is DocumentStart || self.event_type is DocumentEnd),
    {
        match &self.event_type {
            EventType::DocumentStart { .. } | EventType::DocumentEnd { .. } => true,
            _ => false,
        }
    }

    /// The event as the parser's trace prints it, e.g. `SCALAR(test,
    /// DoubleQuoted)` or `MAPPING-START (block)`.
    pub fn to_string(&self) -> (s: String)
        ensures
            s@ == spec_event_display(self.event_type),
    {
        let mut out = String::new();
        match &self.event_type {
            EventType::StreamStart => push_str(&mut out, "STREAM-START"),
            EventType::StreamEnd => push_str(&mut out, "STREAM-END"),
            EventType::DocumentStart { implicit, .. } => {
                if *implicit {
                    push_str(&mut out, "DOCUMENT-START (implicit)")
                } else {
                    push_str(&mut out, "DOCUMENT-START")
                }
            },
            EventType::DocumentEnd { implicit } => {
                if *implicit {
                    push_str(&mut out, "DOCUMENT-END (implicit)")
                } else {
                    push_str(&mut out, "DOCUMENT-END")
                }
            },
            EventType::Scalar { value, style, .. } => {
                push_str(&mut out, "SCALAR(");
                push_str(&mut out, value.as_str());
                push_str(&mut out, ", ");
                push_str(&mut out, style.debug_name());
                push_str(&mut out, ")");
            },
            EventType::SequenceStart { flow_style, .. } => {
                if *flow_style {
                    push_str(&mut out, "SEQUENCE-START (flow)")
                } else {
                    push_str(&mut out, "SEQUENCE-START (block)")
                }
            },
            EventType::SequenceEnd => push_str(&mut out, "SEQUENCE-END"),
            EventType::MappingStart { flow_style, .. } => {
                if *flow_style {
                    push_str(&mut out, "MAPPING-START (flow)")
                } else {
                    push_str(&mut out, "MAPPING-START (block)")
                }
            },
            EventType::MappingEnd => push_str(&mut out, "MAPPING-END"),
            EventType::Alias { anchor } => {
                push_str(&mut out, "ALIAS(");
                push_str(&mut out, anchor.as_str());
                push_str(&mut out, ")");
            },
        }
        out
    }
}

/// How an event prints in the parser's trace.
pub open spec fn spec_event_display(t: EventType) -> Seq<char> {
    match t {
        EventType::StreamStart => "STREAM-START"@,
        EventType::StreamEnd => "STREAM-END"@,
        EventType::DocumentStart { implicit, .. } => if implicit {
            "DOCUMENT-START (implicit)"@
        } else {
            "DOCUMENT-START"@
        },
        EventType::DocumentEnd { implicit } => if implicit {
            "DOCUMENT-END (implicit)"@
        } else {
            "DOCUMENT-END"@
        },
        EventType::Scalar { value, style, .. } => "SCALAR("@ + value@ + ", "@
            + style.spec_debug_name() + ")"@,
        EventType::SequenceStart { flow_style, .. } => if flow_style {
            "SEQUENCE-START (flow)"@
        } else {
            "SEQUENCE-START (block)"@
        },
        EventType::SequenceEnd => "SEQUENCE-END"@,
        EventType::MappingStart { flow_style, .. } => if flow_style {
            "MAPPING-START (flow)"@
        } else {
            "MAPPING-START (block)"@
        },
        EventType::MappingEnd => "MAPPING-END"@,
        EventType::Alias { anchor } => "ALIAS("@ + anchor@ + ")"@,
    }
}

} // verus!
