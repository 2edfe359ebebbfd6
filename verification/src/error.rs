//! The failures an ancestry computation can report.

use vstd::prelude::*;

verus! {

/// Why an ancestry query or computation did not produce a result.
#[derive(Clone, Copy, Debug, PartialEq, Eq, Structural)]
pub enum AncestryError {
    /// The edge index could not be consulted. The caller may retry.
    GraphUnavailable,
    /// The edge set breaks the ancestry discipline: a person was reached a
    /// second time where the computation requires a single visit.
    CyclicAncestry,
    /// The requested person or family is absent from the record store.
    NotFound,
    /// An exact result exists but does not fit the machine representation.
    OutOfRange,
}

impl AncestryError {
    /// Whether retrying the same request later may succeed.
    pub fn is_recoverable(&self) -> (r: bool)
        ensures
            r == (*self == AncestryError::GraphUnavailable),
    {
        match self {
            AncestryError::GraphUnavailable => true,
            _ => false,
        }
    }
}

} // verus!
