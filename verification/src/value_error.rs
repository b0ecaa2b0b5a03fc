//! The single error kind of this layer: a failed validation.

use vstd::prelude::*;

verus! {

/// Error raised whenever a construction or mutation would break an
/// invariant of the data model, and by `solve` when re-validation fails.
/// The message names the invariant that was violated.
#[derive(Debug)]
pub struct ValueError {
    pub message: String,
}

impl ValueError {
    /// Wrap a validation failure message.
    pub fn new(message: String) -> (r: ValueError)
        ensures
            r.message@ == message@,
    {
        ValueError { message }
    }
}

} // verus!
