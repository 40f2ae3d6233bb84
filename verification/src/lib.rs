//! Deterministic state-machine core of a replicated key-value store.
//!
//! A [`machine::StateMachine`] owns an in-memory mapping from string keys to
//! string values together with an opaque node id, and exposes one entry
//! point, `apply`, which decodes a serialized [`command::Command`] and
//! executes it against the mapping.  A replication or log-replay driver
//! outside this crate decides the order in which commands arrive; the core
//! is deterministic under any order it is given.
//!
//! Commands travel in a fixed binary wire format: a leading tag byte (`0`
//! for `Set`, `1` for `Get`) followed by each string field as an 8-byte
//! little-endian count of its UTF-8 bytes and then those bytes.  Decoding
//! consumes the whole input: trailing bytes after a structurally complete
//! command are treated as corruption and rejected.

pub mod command;
pub mod error;
pub mod machine;
pub mod wire;
