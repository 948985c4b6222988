//! A YAML library whose scanning, parsing, composing and source-preserving
//! round-trip editing are specified and proved with Verus.

pub mod chars;
pub mod compose;
pub mod composer_optimized;
pub mod error;
pub mod float_key;
pub mod numbers;
pub mod optimized;
pub mod parser;
pub mod position;
pub mod representer;
pub mod resolver;
pub mod roundtrip;
pub mod scanner;
pub mod serde_integration;
pub mod serializer;
pub mod slicing;
pub mod text;
pub mod value;
pub mod zerocopy;

pub use composer_optimized::{Limits, OptimizedComposer, ReducedAllocComposer};
pub use error::{Error, ErrorKind, Result};
pub use parser::{Event, EventType, ScalarStyle};
pub use position::Position;
pub use representer::{Representer, SafeRepresenter};
pub use resolver::{BasicResolver, Resolver};
pub use roundtrip::{PathSegment, RoundTripDocument, Span};
pub use scanner::{QuoteStyle, Token, TokenType};
pub use serde_integration::SerdeWrapper;
pub use serializer::{BasicSerializer, Serializer};
pub use value::Value;
