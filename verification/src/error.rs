//! Errors reported by scanning, parsing, composing and editing.

use crate::position::Position;
use vstd::prelude::*;

verus! {

/// What stage of processing an error comes from.
#[derive(Debug, Clone, Copy, PartialEq, Eq, Structural)]
pub enum ErrorKind {
    /// The input is not well-formed YAML (scanning or parsing).
    Parse,
    /// A document could not be composed into a value (unknown or cyclic
    /// alias, bad merge key).
    Construction,
    /// An operation was given a value it cannot use (bad span, unresolved
    /// path, wrong document count).
    Value,
}

/// An error with the position it refers to and a message.
#[derive(Debug, Clone)]
pub struct Error {
    /// The stage the error comes from.
    pub kind: ErrorKind,
    /// Where in the input the error was detected.
    pub position: Position,
    /// A human-readable description.
    pub message: String,
}

/// The library's result type.
pub type Result<T> = core::result::Result<T, Error>;

impl Error {
    /// A parse error at `position`.
    pub fn parse(position: Position, message: &str) -> (e: Error)
        ensures
            e.kind == ErrorKind::Parse,
            e.position == position,
            e.message@ == message@,
    {
        Error { kind: ErrorKind::Parse, position, message: message.to_owned() }
    }

    /// A construction error at `position`.
    pub fn construction(position: Position, message: &str) -> (e: Error)
        ensures
            e.kind == ErrorKind::Construction,
            e.position == position,
            e.message@ == message@,
    {
        Error { kind: ErrorKind::Construction, position, message: message.to_owned() }
    }

    /// A value error at `position`, with an owned message.
    pub fn value_error(position: Position, message: String) -> (e: Error)
        ensures
            e.kind == ErrorKind::Value,
            e.position == position,
            e.message == message,
    {
        Error { kind: ErrorKind::Value, position, message }
    }
}

} // verus!
