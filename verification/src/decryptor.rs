//! Decryptors: turn a parsed header and a set of candidate key-unwrap
//! outcomes into a ready-to-read plaintext stream.
//!
//! A header carries an ordered list of opaque recipient stanzas. The caller
//! attempts to unwrap each stanza with its identities or passphrase — that
//! work happens outside this crate — and hands the per-stanza outcomes in
//! here, in header order. The decryptor takes the first stanza that
//! unwrapped, derives the one-time payload key by combining the unwrapped
//! file key with the header's 16-byte nonce through HKDF, and wraps a
//! [`StreamReader`] around the payload. If no stanza unwraps, decryption
//! fails with a no-matching-key condition. The passphrase variant enforces
//! a work-factor ceiling before anything else, so a crafted file cannot
//! demand unbounded key-derivation work.
//!
//! Because the outcomes arrive precomputed, the first-match rule and the
//! ceiling govern which outcome is *used*, not which unwraps the caller
//! spends work on: a caller wanting to avoid needless unwrap attempts
//! should walk the stanza list (exposed by `stanzas`) in order and stop at
//! the first stanza its keys can serve, exactly as the scan would.

use vstd::prelude::*;

use crate::aead::{hkdf_payload_key, payload_key_of};
use crate::errors::Error;
use crate::stream::{PayloadKey, Stream, StreamReader};

verus! {

/// The default work-factor ceiling applied when the caller sets none:
/// 2^22 scrypt iterations, roughly sixteen seconds of key-derivation work
/// on commodity hardware.
pub const DEFAULT_MAX_WORK_FACTOR: u8 = 22;

/// A 16-byte file key unwrapped from a recipient stanza; wiped when
/// released.
pub struct FileKey {
    bytes: [u8; 16],
}

impl View for FileKey {
    type V = Seq<u8>;

    closed spec fn view(&self) -> Seq<u8> {
        self.bytes@
    }
}

impl FileKey {
    /// Wraps unwrapped file-key bytes.
    pub fn new(bytes: [u8; 16]) -> (r: FileKey)
        ensures
            r@ == bytes@,
    {
        FileKey { bytes }
    }
}

impl Drop for FileKey {
    /// Relies on zeroize's `Zeroize` for byte arrays: the file-key bytes
    /// are overwritten with zeros when the holder is released.
    #[verifier::external_body]
    fn drop(&mut self)
        opens_invariants none
        no_unwind
    {
        zeroize::Zeroize::zeroize(&mut self.bytes);
    }
}

/// A recipient stanza wrapping the file key under a passphrase, with the
/// embedded work factor (log2 of the scrypt cost) in plain view.
pub struct ScryptStanza {
    /// The stanza's salt.
    pub salt: Vec<u8>,
    /// log2 of the scrypt work factor the stanza claims.
    pub log_n: u8,
    /// The wrapped file key.
    pub body: Vec<u8>,
}

/// A recipient stanza of any other mechanism, opaque to this crate.
pub struct OtherStanza {
    /// The stanza's tag, naming its mechanism.
    pub tag: Vec<u8>,
    /// The stanza's arguments.
    pub args: Vec<Vec<u8>>,
    /// The wrapped file key.
    pub body: Vec<u8>,
}

/// One record of the header's recipient list.
pub enum RecipientStanza {
    /// A passphrase (scrypt) stanza.
    Scrypt(ScryptStanza),
    /// Any other stanza.
    Other(OtherStanza),
}

/// A parsed header: the ordered recipient stanzas.
pub struct Header {
    /// The recipient stanzas, in file order.
    pub recipients: Vec<RecipientStanza>,
}

/// What key resolution yields for a sequence of per-stanza unwrap outcomes:
/// the first stanza that produced an outcome decides — a successful unwrap
/// gives the payload key derived from its file key and the header nonce, a
/// failed attempt gives its error — and if none produced an outcome there
/// is no matching key.
pub open spec fn key_resolution(
    outcomes: Seq<Option<Result<FileKey, Error>>>,
    header_nonce: Seq<u8>,
) -> Result<Seq<u8>, Error>
    decreases outcomes.len(),
{
    if outcomes.len() == 0 {
        Err(Error::NoMatchingKeys)
    } else {
        match outcomes[0] {
            Some(res) => match res {
                Ok(fk) => Ok(payload_key_of(fk@, header_nonce)),
                Err(e) => Err(e),
            },
            None => key_resolution(outcomes.skip(1), header_nonce),
        }
    }
}

/// What passphrase resolution yields: stanzas are scanned in header order;
/// the first scrypt stanza whose work factor exceeds the ceiling aborts the
/// scan, an unwrapped scrypt stanza yields the derived payload key, and a
/// scan that finds nothing has no matching key.
pub open spec fn passphrase_resolution(
    stanzas: Seq<RecipientStanza>,
    attempts: Seq<Option<FileKey>>,
    ceiling: u8,
    header_nonce: Seq<u8>,
) -> Result<Seq<u8>, Error>
    decreases stanzas.len(),
{
    if stanzas.len() == 0 {
        Err(Error::NoMatchingKeys)
    } else {
        match stanzas[0] {
            RecipientStanza::Scrypt(s) => if s.log_n > ceiling {
                Err(Error::ExcessiveWork { required: s.log_n, maximum: ceiling })
            } else {
                match attempts[0] {
                    Some(fk) => Ok(payload_key_of(fk@, header_nonce)),
                    None => passphrase_resolution(
                        stanzas.skip(1),
                        attempts.skip(1),
                        ceiling,
                        header_nonce,
                    ),
                }
            },
            RecipientStanza::Other(_) => passphrase_resolution(
                stanzas.skip(1),
                attempts.skip(1),
                ceiling,
                header_nonce,
            ),
        }
    }
}

/// The work-factor ceiling in force: the caller's maximum, or the default.
pub open spec fn work_factor_ceiling(max_work_factor: Option<u8>) -> u8 {
    match max_work_factor {
        Some(m) => m,
        None => DEFAULT_MAX_WORK_FACTOR,
    }
}

/// Shared base of the decryptors: the armor-decoded payload source, the
/// parsed header, and the header's 16-byte nonce (used once, for key
/// derivation, never as a chunk nonce).
pub struct BaseDecryptor {
    input: Vec<u8>,
    header: Header,
    nonce: [u8; 16],
}

impl BaseDecryptor {
    /// The payload source.
    pub closed spec fn source_view(self) -> Seq<u8> {
        self.input@
    }

    /// The header's recipient stanzas.
    pub closed spec fn stanzas(self) -> Seq<RecipientStanza> {
        self.header.recipients@
    }

    /// The header's nonce.
    pub closed spec fn nonce_view(self) -> Seq<u8> {
        self.nonce@
    }

    /// Builds a base decryptor over a payload source, header and nonce.
    pub fn new(input: Vec<u8>, header: Header, nonce: [u8; 16]) -> (r: BaseDecryptor)
        ensures
            r.source_view() == input@,
            r.stanzas() == header.recipients@,
            r.nonce_view() == nonce@,
    {
        BaseDecryptor { input, header, nonce }
    }

    /// Resolves the payload key from per-stanza unwrap outcomes, in header
    /// order: the first outcome decides, and the key is derived from its
    /// file key and the header nonce.
    pub fn obtain_payload_key(&self, outcomes: &Vec<Option<Result<FileKey, Error>>>) -> (r:
        Result<PayloadKey, Error>)
        requires
            outcomes@.len() == self.stanzas().len(),
        ensures
            r matches Ok(pk) ==> key_resolution(outcomes@, self.nonce_view()) == Ok::<
                Seq<u8>,
                Error,
            >(pk@),
            r matches Err(e) ==> key_resolution(outcomes@, self.nonce_view()) == Err::<
                Seq<u8>,
                Error,
            >(e),
    {
        let ghost all = outcomes@;
        proof {
            assert(all.skip(0) =~= all);
        }
        let mut i: usize = 0;
        while i < outcomes.len()
            invariant
                i <= all.len(),
                outcomes@ == all,
                self.nonce@ == self.nonce_view(),
                key_resolution(all, self.nonce_view()) == key_resolution(
                    all.skip(i as int),
                    self.nonce_view(),
                ),
            decreases all.len() - i,
        {
            match &outcomes[i] {
                Some(res) => {
                    match res {
                        Ok(fk) => {
                            let fk_bytes: [u8; 16] = fk.bytes;
                            let okm = hkdf_payload_key(&fk_bytes, &self.nonce);
                            return Ok(PayloadKey::new(okm));
                        },
                        Err(e) => {
                            return Err(*e);
                        },
                    }
                },
                None => {
                    proof {
                        assert(all.skip(i as int).skip(1) =~= all.skip(i + 1));
                    }
                },
            }
            i = i + 1;
        }
        Err(Error::NoMatchingKeys)
    }
}

/// Decryptor for a stream encrypted to a list of recipients.
pub struct RecipientsDecryptor(BaseDecryptor);

impl RecipientsDecryptor {
    /// The payload source.
    pub closed spec fn source_view(self) -> Seq<u8> {
        self.0.source_view()
    }

    /// The header's recipient stanzas.
    pub closed spec fn stanzas(self) -> Seq<RecipientStanza> {
        self.0.stanzas()
    }

    /// The header's nonce.
    pub closed spec fn nonce_view(self) -> Seq<u8> {
        self.0.nonce_view()
    }

    /// Builds a recipients decryptor over a payload source, header and
    /// nonce.
    pub fn new(input: Vec<u8>, header: Header, nonce: [u8; 16]) -> (r: RecipientsDecryptor)
        ensures
            r.source_view() == input@,
            r.stanzas() == header.recipients@,
            r.nonce_view() == nonce@,
    {
        RecipientsDecryptor(BaseDecryptor::new(input, header, nonce))
    }

    /// Attempts decryption from per-stanza identity-unwrap outcomes; on
    /// success the reader provides the plaintext from the start of the
    /// payload.
    pub fn decrypt(self, outcomes: &Vec<Option<Result<FileKey, Error>>>) -> (r: Result<
        StreamReader,
        Error,
    >)
        requires
            outcomes@.len() == self.stanzas().len(),
        ensures
            key_resolution(outcomes@, self.nonce_view()) matches Ok(key) ==> (r matches Ok(rd)
                && rd.wf() && rd.key_view() == key && rd.src() == self.source_view()
                && rd.start_off() == 0 && rd.pos() == 0),
            key_resolution(outcomes@, self.nonce_view()) matches Err(e) ==> r matches Err(e2)
                && e2 == e,
    {
        self.decrypt_with_callbacks(outcomes)
    }

    /// Attempts decryption from per-stanza unwrap outcomes gathered with
    /// the caller's own prompting; identical to
    /// [`RecipientsDecryptor::decrypt`], which already leaves all prompting
    /// to the caller.
    pub fn decrypt_with_callbacks(self, outcomes: &Vec<Option<Result<FileKey, Error>>>) -> (r:
        Result<StreamReader, Error>)
        requires
            outcomes@.len() == self.stanzas().len(),
        ensures
            key_resolution(outcomes@, self.nonce_view()) matches Ok(key) ==> (r matches Ok(rd)
                && rd.wf() && rd.key_view() == key && rd.src() == self.source_view()
                && rd.start_off() == 0 && rd.pos() == 0),
            key_resolution(outcomes@, self.nonce_view()) matches Err(e) ==> r matches Err(e2)
                && e2 == e,
    {
        match self.0.obtain_payload_key(outcomes) {
            Ok(payload_key) => Ok(Stream::decrypt(payload_key, self.0.input)),
            Err(e) => Err(e),
        }
    }
}

/// Decryptor for a stream encrypted with a passphrase.
pub struct PassphraseDecryptor(BaseDecryptor);

impl PassphraseDecryptor {
    /// The payload source.
    pub closed spec fn source_view(self) -> Seq<u8> {
        self.0.source_view()
    }

    /// The header's recipient stanzas.
    pub closed spec fn stanzas(self) -> Seq<RecipientStanza> {
        self.0.stanzas()
    }

    /// The header's nonce.
    pub closed spec fn nonce_view(self) -> Seq<u8> {
        self.0.nonce_view()
    }

    /// Builds a passphrase decryptor over a payload source, header and
    /// nonce.
    pub fn new(input: Vec<u8>, header: Header, nonce: [u8; 16]) -> (r: PassphraseDecryptor)
        ensures
            r.source_view() == input@,
            r.stanzas() == header.recipients@,
            r.nonce_view() == nonce@,
    {
        PassphraseDecryptor(BaseDecryptor::new(input, header, nonce))
    }

    /// Attempts decryption from per-stanza passphrase-unwrap attempts.
    ///
    /// `max_work_factor` is the maximum accepted work factor; unset, a
    /// default ceiling of about sixteen seconds of computation applies. A
    /// scrypt stanza claiming more work than the ceiling is rejected as
    /// `ExcessiveWork` before any attempt counts, protecting the caller
    /// from maliciously expensive stanzas in a crafted file.
    pub fn decrypt(self, attempts: &Vec<Option<FileKey>>, max_work_factor: Option<u8>) -> (r:
        Result<StreamReader, Error>)
        requires
            attempts@.len() == self.stanzas().len(),
        ensures
            passphrase_resolution(
                self.stanzas(),
                attempts@,
                work_factor_ceiling(max_work_factor),
                self.nonce_view(),
            ) matches Ok(key) ==> (r matches Ok(rd) && rd.wf() && rd.key_view() == key
                && rd.src() == self.source_view() && rd.start_off() == 0 && rd.pos() == 0),
            passphrase_resolution(
                self.stanzas(),
                attempts@,
                work_factor_ceiling(max_work_factor),
                self.nonce_view(),
            ) matches Err(e) ==> r matches Err(e2) && e2 == e,
    {
        let ceiling: u8 = match max_work_factor {
            Some(m) => m,
            None => DEFAULT_MAX_WORK_FACTOR,
        };
        let ghost stanzas = self.stanzas();
        let ghost all = attempts@;
        let ghost nonce_v = self.nonce_view();
        proof {
            assert(stanzas.skip(0) =~= stanzas);
            assert(all.skip(0) =~= all);
        }
        let mut i: usize = 0;
        let n = self.0.header.recipients.len();
        while i < n
            invariant
                i <= stanzas.len(),
                n == stanzas.len(),
                all.len() == stanzas.len(),
                self.0.header.recipients@ == stanzas,
                attempts@ == all,
                self.0.nonce@ == nonce_v,
                ceiling == work_factor_ceiling(max_work_factor),
                passphrase_resolution(stanzas, all, ceiling, nonce_v) == passphrase_resolution(
                    stanzas.skip(i as int),
                    all.skip(i as int),
                    ceiling,
                    nonce_v,
                ),
            decreases stanzas.len() - i,
        {
            match &self.0.header.recipients[i] {
                RecipientStanza::Scrypt(s) => {
                    if s.log_n > ceiling {
                        return Err(Error::ExcessiveWork { required: s.log_n, maximum: ceiling });
                    }
                    match &attempts[i] {
                        Some(fk) => {
                            let fk_bytes: [u8; 16] = fk.bytes;
                            let okm = hkdf_payload_key(&fk_bytes, &self.0.nonce);
                            let payload_key = PayloadKey::new(okm);
                            return Ok(Stream::decrypt(payload_key, self.0.input));
                        },
                        None => {},
                    }
                },
                RecipientStanza::Other(_) => {},
            }
            proof {
                assert(stanzas.skip(i as int).skip(1) =~= stanzas.skip(i + 1));
                assert(all.skip(i as int).skip(1) =~= all.skip(i + 1));
            }
            i = i + 1;
        }
        Err(Error::NoMatchingKeys)
    }
}

} // verus!
