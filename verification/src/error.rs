use vstd::prelude::*;

verus! {

/// The failure taxonomy of the state-machine core.
///
/// - `DecodingFailure`: the raw bytes do not form a valid `Command`
///   encoding (empty input, unknown tag, malformed or truncated length
///   prefix, a payload that is not valid UTF-8, or trailing bytes).  Not
///   retryable with the same input; the originating log entry should be
///   treated as corrupt.
/// - `EncodingFailure`: a `Command` value could not be serialized.  The
///   encoder's contract proves this is never returned for any command, but
///   the taxonomy surfaces it rather than reserving a panic for it.
/// - `LockFailure`: exclusive access to the mapping could not be obtained.
///   The core itself takes exclusive access through `&mut` and therefore
///   never returns this variant; it is reserved for callers that share one
///   machine behind a poisonable lock and must report a poisoned guard
///   upward instead of crashing.
/// - `NotFound`: a `Get` referenced a key absent from the mapping.  An
///   expected, recoverable negative result, distinct from corruption.
#[derive(Clone, Copy, Debug, PartialEq, Eq, Structural)]
pub enum ApplyError {
    DecodingFailure,
    EncodingFailure,
    LockFailure,
    NotFound,
}

} // verus!
