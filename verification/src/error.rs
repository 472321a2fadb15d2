//! The ways in which an edit can be refused.

use vstd::prelude::*;

verus! {

/// Why an operation did not take place. An operation that fails leaves the
/// body and the location table as they were.
#[derive(Clone, Copy, Debug, PartialEq, Eq, Structural)]
pub enum PatchError {
    /// The coordinate was never a program point of the body as first supplied.
    UnknownLocation,
    /// The coordinate denotes a terminator, which cannot become a no-op.
    TerminatorNotNoppable,
    /// The instrumentation template is documented but not designed yet.
    Unsupported,
}

} // verus!
