//! Serializing values.

use crate::error::Result;
use crate::value::Value;
use vstd::prelude::*;

verus! {

/// Writes out values.
pub trait Serializer {
    /// Serialize `value`.
    fn serialize(&mut self, value: &Value) -> Result<()>;

    /// Reset the serializer's state.
    fn reset(&mut self);
}

/// A serializer that accepts every value and writes nothing.
#[derive(Debug)]
pub struct BasicSerializer {}

impl BasicSerializer {
    /// A new serializer.
    pub fn new() -> (s: Self) {
        BasicSerializer {  }
    }
}

impl Default for BasicSerializer {
    /// A new serializer.
    fn default() -> (s: Self) {
        Self::new()
    }
}

impl Serializer for BasicSerializer {
    /// Accepts the value.
    fn serialize(&mut self, _value: &Value) -> (r: Result<()>)
        ensures
            r is Ok,
    {
        Ok(())
    }

    /// Nothing to reset.
    fn reset(&mut self) {
    }
}

} // verus!
