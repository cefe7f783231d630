use vstd::prelude::*;

verus! {

/// Failure taxonomy of the prover core.
///
/// Every error is fatal for the whole multi-round run: there are no
/// transient or retryable errors, and no partial proof is meaningful.
#[derive(Clone, Copy, Debug, PartialEq, Eq, Structural)]
pub enum SynthesisError {
    /// A size that must be a power of two (or fit the supported two-adic
    /// range of the field) is not.
    NonPowerOfTwoSize,
    /// Two vectors that must share a length do not.
    SizeMismatch,
    /// The assembly handed to round one was not finalized.
    AssemblyNotFinalized,
    /// An inversion met zero; signals malformed setup or a size mismatch.
    DivisionByZero,
    /// The round-four scalar self-check failed: the constraint system is
    /// unsatisfiable. Must never be swallowed.
    Unsatisfiable,
}

} // verus!
