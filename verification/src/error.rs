//! The ways an operation on a bit array can fail.

use vstd::prelude::*;

verus! {

/// Why an operation on a bit array was refused. A refused operation has
/// changed nothing.
#[derive(Clone, Copy, Debug, PartialEq, Eq, Structural)]
pub enum BitArrayError {
    /// Storage for a new array or for a chunk buffer could not be had.
    Allocation,
    /// A bit index or byte range reaches beyond the end of the array.
    IndexOutOfRange,
}

impl BitArrayError {
    /// A short description of the failure, fit for a log line or a message
    /// to the caller.
    pub fn message(&self) -> (r: &'static str)
        ensures
            r@.len() > 0,
            (r@ == "allocation failed"@) <==> (*self == BitArrayError::Allocation),
            (r@ == "index out of range"@) <==> (*self == BitArrayError::IndexOutOfRange),
    {
        proof {
            reveal_strlit("allocation failed");
            reveal_strlit("index out of range");
        }
        match self {
            BitArrayError::Allocation => "allocation failed",
            BitArrayError::IndexOutOfRange => "index out of range",
        }
    }
}

} // verus!
