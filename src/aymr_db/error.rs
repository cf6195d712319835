//! The error kind of every fallible operation.

use vstd::prelude::*;

verus! {

/// Why an operation did not take place.
#[derive(Debug, Clone, Copy, PartialEq, Eq, Structural)]
pub enum Error {
    /// The engine does not offer this operation.
    Unsupported,
    /// The engine failed inside (for engines that keep their data outside memory).
    Backend,
}

} // verus!
