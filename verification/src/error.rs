//! The two failure conditions the mask can report.

use vstd::prelude::*;

verus! {

/// Error conditions reported by fallible mask operations.
///
/// `IndexOutOfBounds` is returned by single-bit access when the index is not
/// below the mask's logical length; `DeserializationFailed` is returned when a
/// transport record cannot be decoded back into a mask.
#[derive(Clone, Copy, Debug, PartialEq, Eq, Structural)]
pub enum BitMaskError {
    IndexOutOfBounds,
    DeserializationFailed,
}

impl BitMaskError {
    /// A human-readable name of the error condition.
    pub fn message(&self) -> (r: &'static str)
        ensures
            *self is IndexOutOfBounds ==> r@ == "IndexOutOfBounds"@,
            *self is DeserializationFailed ==> r@ == "DeserializationFailed"@,
    {
        match self {
            BitMaskError::IndexOutOfBounds => "IndexOutOfBounds",
            BitMaskError::DeserializationFailed => "DeserializationFailed",
        }
    }
}

} // verus!
