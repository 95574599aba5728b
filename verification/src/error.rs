//! The single recoverable error kind.

use vstd::prelude::*;

verus! {

/// A required upstream element was not resolvable from the context visible
/// at invocation time — an empty candidate set, an all-zero weight
/// distribution, a missing key or chord.  Always recoverable by the engine
/// that schedules the models (retry later or skip the subtree), never a
/// crash.
#[derive(Debug)]
pub enum RenderError {
    MissingContext(String),
}

impl RenderError {
    /// The human-readable reason the context was insufficient.
    pub fn reason(&self) -> (r: &str)
        ensures
            r@ == self->0@,
    {
        match self {
            RenderError::MissingContext(s) => s.as_str(),
        }
    }
}

} // verus!
