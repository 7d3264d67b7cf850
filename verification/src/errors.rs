//! Failures a verification attempt can surface.

use vstd::prelude::*;

verus! {

/// Errors local to one verification attempt.  None of them corrupts the
/// state of later attempts: every attempt runs against a fresh store.
#[derive(Clone, Copy, Debug, PartialEq, Eq, Structural)]
pub enum VerifierError {
    /// An operation names a cell that was never created: a defect in the
    /// construction of the thread programs, surfaced immediately.
    UnknownCell,
    /// An interleaving references an operation index out of range or breaks
    /// a thread's internal order: a defect in whatever produced the
    /// interleaving.  The enumerator never produces such an input.
    MalformedInterleaving,
    /// The assertion references a value that no operation produced.  This is
    /// a checker failure, distinct from an assertion violation.
    UnboundBinding,
}

impl VerifierError {
    /// A short description of the error.
    pub fn describe(&self) -> (r: &'static str)
        ensures
            self is UnknownCell ==> r@ == "operation references a cell never created"@,
            self is MalformedInterleaving ==> r@ == "interleaving breaks program order"@,
            self is UnboundBinding ==> r@ == "assertion references an unbound value"@,
    {
        match self {
            VerifierError::UnknownCell => "operation references a cell never created",
            VerifierError::MalformedInterleaving => "interleaving breaks program order",
            VerifierError::UnboundBinding => "assertion references an unbound value",
        }
    }
}

} // verus!
