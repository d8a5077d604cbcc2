use vstd::prelude::*;

verus! {

/// Error kinds surfaced to callers of the library.
///
/// `IoError` and `OtError` are raised by the host that drives the byte
/// channel and the oblivious-transfer primitive; the library itself only
/// raises the remaining kinds.
#[derive(Clone, Copy, Debug, PartialEq, Eq, Structural)]
pub enum OleError {
    /// A channel read, write or flush failed. Fatal to the session.
    IoError,
    /// The oblivious-transfer subprotocol failed. Fatal to the session.
    OtError,
    /// The caller passed vectors of unequal length, or longer than A/2.
    LengthMismatch,
    /// The receiver found that the hash of the reconstructed secret does
    /// not match the sender's commitment.
    CommitmentMismatch,
    /// The sender found that the revealed secret differs from its own.
    SecretMismatch,
    /// The polynomial identity did not hold at a challenge point.
    IdentityCheckFailed,
    /// An internal precondition was violated (wrong FFT length, wrong root
    /// of unity, division by a zero polynomial).
    PreconditionError,
}

} // verus!
