//! Representing values before they are serialized.

use crate::error::Result;
use crate::value::{Value, copy_value, same_value};
use vstd::prelude::*;

verus! {

/// Turns a value into the value to serialize.
pub trait Representer {
    /// The value to serialize for `value`.
    fn represent(&mut self, value: &Value) -> Result<Value>;

    /// Reset the representer's state.
    fn reset(&mut self);
}

/// A representer that represents every value as itself.
#[derive(Debug)]
pub struct SafeRepresenter {}

impl SafeRepresenter {
    /// A new representer.
    pub fn new() -> (r: Self) {
        SafeRepresenter {  }
    }
}

impl Default for SafeRepresenter {
    /// A new representer.
    fn default() -> (r: Self) {
        Self::new()
    }
}

impl Representer for SafeRepresenter {
    /// A copy of the value itself.
    fn represent(&mut self, value: &Value) -> (r: Result<Value>)
        ensures
            r matches Ok(v) && same_value(v, *value),
    {
        Ok(copy_value(value))
    }

    /// Nothing to reset.
    fn reset(&mut self) {
    }
}

} // verus!
