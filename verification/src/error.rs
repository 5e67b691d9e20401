//! The recognizer's error type.

use vstd::prelude::*;

verus! {

/// The single failure the recognizer reports: `recognize` was called while
/// no gesture template is registered.
#[derive(Debug, PartialEq, Eq, Structural)]
pub enum QDollarError {
    NoRegisteredGestures,
}

impl QDollarError {
    /// A human-readable description of the error.
    pub fn message(&self) -> (s: &'static str)
        ensures
            s@ == "No gestures registered for recognition"@,
    {
        "No gestures registered for recognition"
    }
}

} // verus!
