use vstd::prelude::*;

verus! {

/// The failure kinds that the detection and recovery routines surface to
/// their callers instead of panicking.
#[derive(Clone, Copy, Debug, PartialEq, Eq, Structural)]
pub enum AttackError {
    /// Two byte sequences that must have equal length do not.
    LengthMismatch,
    /// The oracle never changed its ciphertext length across a bounded probe.
    IndeterminateBlockSize,
    /// No candidate byte reproduced the target ciphertext block.
    NoDictionaryMatch,
    /// The oracle's own internal operation failed; propagated, never retried.
    OracleQueryFailed,
}

} // verus!
