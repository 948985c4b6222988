//! The marker type for serde-based conversion.

use vstd::prelude::*;

verus! {

/// Marker for converting values with serde.
#[derive(Debug)]
pub struct SerdeWrapper;

impl SerdeWrapper {
    /// A new marker.
    pub fn new() -> (w: Self) {
        SerdeWrapper
    }
}

impl Default for SerdeWrapper {
    /// A new marker.
    fn default() -> (w: Self) {
        Self::new()
    }
}

} // verus!
