//! Error taxonomy of the commitment scheme.

use vstd::prelude::*;

verus! {

/// A fault surfaced to the caller.  Verification failure is not an error but
/// the `false` outcome of the verifier.
#[derive(Debug, Clone, Copy, PartialEq, Eq, Structural)]
pub enum KzgError {
    /// A degree is unsupported: it exceeds the capacity of the reference
    /// string at key derivation, commitment or opening time.
    InvalidDegree,
    /// Interpolation input holds a repeated x-coordinate.
    DuplicateAbscissa,
    /// Synthetic division left a non-zero remainder; an internal fault that
    /// the opener checks for and that verification proves unreachable.
    DivisionInvariantViolated,
}

} // verus!
