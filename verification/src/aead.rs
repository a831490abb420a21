//! Trusted boundary to the outside cryptographic primitives.
//!
//! The AEAD itself (ChaCha20-Poly1305) and the payload-key derivation
//! (HKDF-SHA-256) are outside crates. Their results are named by the
//! uninterpreted functions below; the wrappers state the few facts the rest
//! of the library builds on, and everything else is proved from those facts.

use vstd::prelude::*;

use chacha20poly1305::aead::AeadInOut;
use chacha20poly1305::{ChaCha20Poly1305, KeyInit};

use crate::{CHUNK_SIZE, TAG_SIZE};

verus! {

/// The ciphertext-with-tag that ChaCha20-Poly1305 produces for a key, a
/// nonce and a plaintext. Encryption is deterministic, so this is a function
/// of its arguments alone.
pub uninterp spec fn sealed(key: Seq<u8>, nonce: Seq<u8>, plaintext: Seq<u8>) -> Seq<u8>;

/// The result of ChaCha20-Poly1305 decryption for a key, a nonce and a
/// ciphertext-with-tag: the plaintext if the tag verifies, nothing if it
/// does not. Decryption is deterministic, so this too is a function of its
/// arguments alone.
pub uninterp spec fn opened(key: Seq<u8>, nonce: Seq<u8>, ciphertext: Seq<u8>) -> Option<Seq<u8>>;

/// The 32-byte payload key that HKDF-SHA-256 derives from an unwrapped file
/// key and a header nonce, with the fixed label `"payload"`.
pub uninterp spec fn payload_key_of(file_key: Seq<u8>, header_nonce: Seq<u8>) -> Seq<u8>;

/// Relies on chacha20poly1305's `encrypt_in_place`: it extends the buffer
/// with a 16-byte Poly1305 tag, deterministically in (key, nonce, buffer);
/// decrypting the result under the same key and nonce returns the original
/// buffer, and under any other nonce the tag does not verify, because the
/// Poly1305 key is derived from the nonce.
#[verifier::external_body]
pub(crate) fn aead_seal(key: &[u8; 32], nonce: &Vec<u8>, buffer: &mut Vec<u8>)
    requires
        old(buffer)@.len() <= CHUNK_SIZE,
        nonce@.len() == 12,
    ensures
        final(buffer)@ == sealed(key@, nonce@, old(buffer)@),
        final(buffer)@.len() == old(buffer)@.len() + TAG_SIZE,
        opened(key@, nonce@, final(buffer)@) == Some(old(buffer)@),
        forall|other: Seq<u8>|
            other.len() == 12 && other != nonce@ ==> opened(key@, other, final(buffer)@) is None,
{
    let cipher = ChaCha20Poly1305::new(key.into());
    let nonce_bytes: &[u8; 12] = nonce.as_slice().try_into().expect("nonce is 12 bytes");
    cipher
        .encrypt_in_place(nonce_bytes.into(), &[], buffer)
        .expect("a chunk is far below the AEAD message limit");
}

/// Relies on chacha20poly1305's `decrypt_in_place`: it verifies the trailing
/// 16-byte tag and, on success, strips it and leaves the plaintext in the
/// buffer; on failure it reports an error and the buffer is unspecified.
#[verifier::external_body]
pub(crate) fn aead_open(key: &[u8; 32], nonce: &Vec<u8>, buffer: &mut Vec<u8>) -> (ok: bool)
    requires
        nonce@.len() == 12,
    ensures
        ok == (opened(key@, nonce@, old(buffer)@) is Some),
        (opened(key@, nonce@, old(buffer)@) matches Some(p) ==> final(buffer)@ == p
            && p.len() + TAG_SIZE == old(buffer)@.len()),
{
    let cipher = ChaCha20Poly1305::new(key.into());
    let nonce_bytes: &[u8; 12] = nonce.as_slice().try_into().expect("nonce is 12 bytes");
    cipher.decrypt_in_place(nonce_bytes.into(), &[], buffer).is_ok()
}

/// Relies on hkdf's `Hkdf::<Sha256>` extract-and-expand: a pure function of
/// the salt (the header nonce), the input key material (the file key) and
/// the label, producing 32 bytes.
#[verifier::external_body]
pub(crate) fn hkdf_payload_key(file_key: &[u8; 16], header_nonce: &[u8; 16]) -> (r: [u8; 32])
    ensures
        r@ == payload_key_of(file_key@, header_nonce@),
        r@.len() == 32,
{
    let hk = hkdf::Hkdf::<sha2::Sha256>::new(Some(&header_nonce[..]), &file_key[..]);
    let mut okm = [0u8; 32];
    hk.expand(b"payload", &mut okm).expect("32 bytes is a valid HKDF-SHA-256 output length");
    okm
}

/// Relies on zeroize's `Zeroize` for `Vec<u8>`: the buffer's bytes are
/// overwritten with zeros and the vector is emptied.
#[verifier::external_body]
pub(crate) fn wipe_bytes(buffer: &mut Vec<u8>)
    ensures
        final(buffer)@.len() == 0,
{
    zeroize::Zeroize::zeroize(buffer);
}

} // verus!
