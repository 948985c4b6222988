//! Parsing: YAML events, parser state machinery and the parser that turns
//! tokens into events.

pub mod events;
pub mod parse;
pub mod optimizations;

pub use events::{Event, EventType, ScalarStyle};
