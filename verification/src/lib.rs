//! A chunked, authenticated, seekable encryption stream: the STREAM
//! construction instantiated with ChaCha20-Poly1305 in 64 KiB chunks, plus
//! the orchestration that turns a set of candidate decryption keys into a
//! ready-to-read plaintext stream.
//!
//! Plaintext is split into 64 KiB chunks; each chunk is sealed independently
//! under a nonce made of an 11-byte big-endian chunk counter and a one-byte
//! last-chunk flag, which rules out reordering, truncation and splicing.
//! [`stream::StreamWriter`] buffers and encrypts on the way out;
//! [`stream::StreamReader`] decrypts, detects truncation and supports random
//! access by absolute, relative and end-relative offsets. The decryptors in
//! [`decryptor`] pick the first recipient stanza that a caller-supplied
//! candidate unwraps and derive the one-time payload key for the stream.

use vstd::prelude::*;

pub mod aead;
pub mod cooperative;
pub mod decryptor;
pub mod errors;
pub mod model;
pub mod nonce;
pub mod stream;

verus! {

/// Plaintext size of every chunk except the final one, which may be shorter.
pub const CHUNK_SIZE: usize = 65536;

/// Size of the authentication tag appended to each chunk.
pub const TAG_SIZE: usize = 16;

/// On-the-wire size of a full ciphertext chunk.
pub const ENCRYPTED_CHUNK_SIZE: usize = 65552;

/// Distance between consecutive chunk positions: the low-order byte of a
/// position is reserved for the last-chunk flag.
pub const COUNTER_INCR: u128 = 256;

/// Largest admissible chunk position; past it the 88-bit counter would wrap
/// and a nonce would repeat.
pub const COUNTER_MAX: u128 = 0xffffffff_ffffffff_ffffff00;

} // verus!
