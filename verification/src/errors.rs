//! Error conditions reported by the stream layer and the decryptors.

use vstd::prelude::*;

verus! {

/// Failure conditions of the chunked stream itself.
///
/// Every condition is distinct and inspectable, so callers can tell apart
/// corrupt data, truncation, invalid seeks and the (theoretical) exhaustion
/// of the chunk counter.
#[derive(Clone, Copy, Debug, PartialEq, Eq, Structural)]
pub enum StreamError {
    /// The container ended before the final, last-flagged chunk was seen,
    /// or a read asked for more plaintext than the stream holds.
    UnexpectedEof,
    /// A chunk failed authentication: the data is corrupt or has been
    /// tampered with.
    InvalidData,
    /// The chunk counter would exceed its maximum; encrypting or decrypting
    /// further chunks would reuse a nonce.
    CounterOverflow,
    /// A seek would land before the logical start of the stream, or at an
    /// offset that cannot be represented.
    InvalidOffset,
}

/// Failure conditions of payload-key resolution.
#[derive(Clone, Copy, Debug, PartialEq, Eq, Structural)]
pub enum Error {
    /// No recipient stanza could be unwrapped by the supplied candidates.
    NoMatchingKeys,
    /// A passphrase stanza demands more key-derivation work than the
    /// configured (or default) ceiling allows.
    ExcessiveWork { required: u8, maximum: u8 },
}

} // verus!
