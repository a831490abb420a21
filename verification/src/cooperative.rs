//! The cooperative (non-blocking) writer variant.
//!
//! For sinks that cannot always accept bytes, the writer is a state
//! machine: it makes every decision — buffering, sealing, framing — and the
//! caller performs the I/O. A sealed chunk stays in flight, with a byte
//! offset, until the caller has delivered all of it; only then does the
//! writer accept new plaintext or close. Closing seals whatever the buffer
//! holds (possibly nothing) as the final chunk, so even an empty stream
//! closes to a decryptable container.

use vstd::prelude::*;

use crate::aead::{aead_seal, wipe_bytes};
use crate::errors::StreamError;
use crate::model::{
    chunk_ok, chunks_ok, decrypt_stream, last_chunk_ok, lemma_decrypt_of_parts,
    lemma_sealed_prefix_stable, seal_chunk, sealed_prefix,
};
use crate::nonce::aead_nonce;
use crate::stream::{imin, PayloadKey, Stream};
use crate::{CHUNK_SIZE, COUNTER_MAX};

verus! {

/// What one poll step reports: the step is blocked on undelivered
/// ciphertext, or it completed, having accepted that many plaintext bytes.
#[derive(Clone, Copy, Debug, PartialEq, Eq, Structural)]
pub enum PollStatus {
    /// In-flight ciphertext must be delivered before the step can proceed.
    Pending,
    /// The step completed; for a write, how many bytes were accepted.
    Ready(usize),
}

/// A sealed chunk on its way to the sink: its bytes, and how many of them
/// the caller has delivered so far.
struct EncryptedChunk {
    bytes: Vec<u8>,
    offset: usize,
}

/// Writes an encrypted stream cooperatively: [`PollStreamWriter::poll_write`]
/// and [`PollStreamWriter::poll_close`] never block and never perform I/O;
/// the caller ships each in-flight chunk (see
/// [`PollStreamWriter::pending_chunk`] and
/// [`PollStreamWriter::flush_progress`]) between steps.
pub struct PollStreamWriter {
    stream: Stream,
    chunk: Vec<u8>,
    encrypted_chunk: Option<EncryptedChunk>,
    position: u128,
    finished: bool,
    written: Ghost<Seq<u8>>,
    emitted: Ghost<Seq<u8>>,
}

impl PollStreamWriter {
    /// The stream's key.
    pub closed spec fn key_view(self) -> Seq<u8> {
        self.stream@
    }

    /// All plaintext accepted so far.
    pub closed spec fn written(self) -> Seq<u8> {
        self.written@
    }

    /// Ciphertext fully delivered to the caller's sink so far.
    pub closed spec fn emitted(self) -> Seq<u8> {
        self.emitted@
    }

    /// Undelivered bytes of the in-flight chunk.
    pub closed spec fn pending_view(self) -> Seq<u8> {
        match self.encrypted_chunk {
            Some(c) => c.bytes@.skip(c.offset as int),
            None => Seq::empty(),
        }
    }

    /// The whole wire image so far: delivered bytes, then in-flight bytes.
    pub open spec fn wire(self) -> Seq<u8> {
        self.emitted() + self.pending_view()
    }

    /// Whether the final chunk has been sealed.
    pub closed spec fn finished(self) -> bool {
        self.finished
    }

    /// Number of non-final chunks sealed so far.
    pub closed spec fn flushed(self) -> int {
        (self.position as int) / 256
    }

    /// The writer's invariant: the wire image is exactly the sealed
    /// non-final chunks of the accepted plaintext (plus, once closed, the
    /// final chunk, after which the wire image decrypts to the plaintext).
    pub closed spec fn wf(self) -> bool {
        &&& self.chunk@.len() <= CHUNK_SIZE
        &&& (self.position as int) % 256 == 0
        &&& self.position <= COUNTER_MAX
        &&& (match self.encrypted_chunk {
            Some(c) => c.offset <= c.bytes@.len(),
            None => true,
        })
        &&& (!self.finished ==> {
            &&& CHUNK_SIZE * self.flushed() + self.chunk@.len() == self.written@.len()
            &&& self.chunk@ == self.written@.skip(CHUNK_SIZE * self.flushed())
            &&& self.wire() == sealed_prefix(self.key_view(), self.written@, self.flushed(), 0)
            &&& chunks_ok(self.key_view(), self.written@, self.flushed(), 0)
        })
        &&& (self.finished ==> {
            &&& self.chunk@.len() == 0
            &&& decrypt_stream(self.key_view(), self.wire()) == Some(self.written@)
        })
    }

    /// A copy of the in-flight ciphertext still to deliver, or nothing when
    /// the writer is ready for the next step.
    pub fn pending_chunk(&self) -> (r: Option<Vec<u8>>)
        requires
            self.wf(),
        ensures
            r matches Some(v) ==> v@ == self.pending_view() && v@.len() > 0,
            r is None ==> self.pending_view().len() == 0,
    {
        match &self.encrypted_chunk {
            Some(c) => {
                if c.offset < c.bytes.len() {
                    let mut out: Vec<u8> = Vec::new();
                    let mut i: usize = c.offset;
                    while i < c.bytes.len()
                        invariant
                            c.offset <= i <= c.bytes@.len(),
                            out@ == c.bytes@.subrange(c.offset as int, i as int),
                        decreases c.bytes@.len() - i,
                    {
                        out.push(c.bytes[i]);
                        proof {
                            assert(c.bytes@.subrange(c.offset as int, i as int).push(
                                c.bytes@[i as int],
                            ) =~= c.bytes@.subrange(c.offset as int, i + 1));
                        }
                        i = i + 1;
                    }
                    proof {
                        assert(out@ =~= c.bytes@.skip(c.offset as int));
                    }
                    Some(out)
                } else {
                    proof {
                        assert(c.bytes@.skip(c.offset as int) =~= Seq::<u8>::empty());
                    }
                    None
                }
            },
            None => None,
        }
    }

    /// Records that the caller delivered the next `n` bytes of the
    /// in-flight chunk to its sink; once all bytes are delivered, the chunk
    /// is no longer in flight.
    pub fn flush_progress(&mut self, n: usize)
        requires
            old(self).wf(),
            n <= old(self).pending_view().len(),
        ensures
            final(self).wf(),
            final(self).key_view() == old(self).key_view(),
            final(self).written() == old(self).written(),
            final(self).finished() == old(self).finished(),
            final(self).emitted() == old(self).emitted() + old(self).pending_view().take(n as int),
            final(self).pending_view() == old(self).pending_view().skip(n as int),
            final(self).wire() == old(self).wire(),
    {
        let ghost before = self.pending_view();
        let mut done = false;
        match &mut self.encrypted_chunk {
            Some(c) => {
                proof {
                    vstd::std_specs::vec::axiom_spec_len(&c.bytes);
                }
                c.offset = c.offset + n;
                proof {
                    assert(before.take(n as int) =~= c.bytes@.subrange(
                        c.offset - n,
                        c.offset as int,
                    ));
                    assert(before.skip(n as int) =~= c.bytes@.skip(c.offset as int));
                }
                done = c.offset == c.bytes.len();
                self.emitted = Ghost(self.emitted@ + before.take(n as int));
            },
            None => {
                proof {
                    assert(before.take(0) =~= Seq::<u8>::empty());
                    assert(self.emitted@ + Seq::<u8>::empty() =~= self.emitted@);
                }
            },
        }
        if done {
            match self.encrypted_chunk.take() {
                Some(mut spent) => {
                    wipe_bytes(&mut spent.bytes);
                },
                None => {},
            }
        }
        proof {
            assert(self.wire() =~= old(self).wire());
        }
    }

    /// Accepts plaintext: buffers up to a chunk's worth of `buf` and, when
    /// the buffer fills with more input remaining, seals it as a non-final
    /// chunk and puts it in flight. Reports `Pending` while a chunk is in
    /// flight, else how many bytes were accepted (which can be fewer than
    /// offered: the caller loops). Fails only if the chunk counter would
    /// overflow.
    pub fn poll_write(&mut self, buf: &[u8]) -> (r: Result<PollStatus, StreamError>)
        requires
            old(self).wf(),
            !old(self).finished(),
        ensures
            final(self).wf(),
            final(self).key_view() == old(self).key_view(),
            final(self).emitted() == old(self).emitted(),
            final(self).finished() == old(self).finished(),
            old(self).pending_view().len() > 0 ==> r == Ok::<PollStatus, StreamError>(
                PollStatus::Pending,
            ) && *final(self) == *old(self),
            old(self).pending_view().len() == 0 ==> (r matches Ok(st) ==> (st matches
                PollStatus::Ready(n) && n == imin(
                CHUNK_SIZE - old(self).buffered_len(),
                buf@.len() as int,
            ) && final(self).written() == old(self).written() + buf@.take(n as int))),
            // Success is owed: with nothing in flight, the call fails
            // exactly when a chunk must be sealed and the counter has no
            // room left for it.
            old(self).pending_view().len() == 0 ==> (r is Err <==> (CHUNK_SIZE - old(
                self,
            ).buffered_len() < buf@.len() && 256 * (old(self).flushed() + 1) > (
            COUNTER_MAX as int))),
            r is Err ==> r == Err::<PollStatus, StreamError>(StreamError::CounterOverflow)
                && *final(self) == *old(self),
    {
        let ghost key = self.key_view();
        proof {
            vstd::arithmetic::div_mod::lemma_fundamental_div_mod(self.position as int, 256);
        }
        match &self.encrypted_chunk {
            Some(_) => {
                if self.pending_is_nonempty() {
                    return Ok(PollStatus::Pending);
                }
            },
            None => {},
        }
        proof {
            assert(self.pending_view().len() == 0);
        }
        let space = CHUNK_SIZE - self.chunk.len();
        let to_write = if space < buf.len() {
            space
        } else {
            buf.len()
        };
        let seal_needed = to_write < buf.len();
        if seal_needed && self.position > COUNTER_MAX - 256 {
            return Err(StreamError::CounterOverflow);
        }
        let ghost before = self.written@;
        crate::stream::push_range(&mut self.chunk, buf, 0, to_write);
        self.written = Ghost(self.written@ + buf@.take(to_write as int));
        proof {
            let k = self.flushed();
            assert(buf@.subrange(0, to_write as int) =~= buf@.take(to_write as int));
            assert(before.subrange(0, CHUNK_SIZE * k) =~= self.written@.subrange(
                0,
                CHUNK_SIZE * k,
            ));
            lemma_sealed_prefix_stable(key, before, self.written@, k, 0);
            assert forall|i: int| 0 <= i < k implies #[trigger] chunk_ok(
                key,
                self.written@,
                0,
                i,
            ) by {
                assert(chunk_ok(key, before, 0, i));
                assert(self.written@.subrange(CHUNK_SIZE * i, CHUNK_SIZE * (i + 1))
                    =~= before.subrange(CHUNK_SIZE * i, CHUNK_SIZE * (i + 1)));
            }
            assert(self.chunk@ =~= self.written@.skip(CHUNK_SIZE * k));
        }
        if seal_needed {
            // The buffer is full and more input is waiting: seal it as a
            // non-final chunk and hand it to the caller for delivery.
            let nonce = match aead_nonce(self.position, false) {
                Ok(n) => n,
                Err(_) => {
                    proof {
                        assert(false);
                    }
                    return Err(StreamError::CounterOverflow);
                },
            };
            let ghost piece = self.chunk@;
            aead_seal(&self.stream.key_bytes(), &nonce, &mut self.chunk);
            let mut bytes: Vec<u8> = Vec::new();
            core::mem::swap(&mut bytes, &mut self.chunk);
            self.encrypted_chunk = Some(EncryptedChunk { bytes, offset: 0 });
            proof {
                let k = self.flushed();
                assert(piece =~= self.written@.subrange(CHUNK_SIZE * k, CHUNK_SIZE * (k + 1)));
                assert(chunk_ok(key, self.written@, 0, k));
            }
            self.position = self.position + 256;
            proof {
                crate::stream::lemma_chunks_read_step(old(self).position, self.position);
                let k = self.flushed();
                assert(self.chunk@ =~= self.written@.skip(CHUNK_SIZE * k));
                assert(self.wire() =~= sealed_prefix(key, self.written@, k, 0));
            }
        }
        Ok(PollStatus::Ready(to_write))
    }

    /// Closes the stream: once nothing is in flight, seals whatever the
    /// buffer holds — possibly nothing — as the final chunk and puts it in
    /// flight; reports `Ready(0)` only when that final chunk has been fully
    /// delivered, at which point the emitted bytes form a complete
    /// container that decrypts to everything ever accepted. Closing is
    /// mandatory: without it the delivered bytes are a truncated container.
    pub fn poll_close(&mut self) -> (r: Result<PollStatus, StreamError>)
        requires
            old(self).wf(),
        ensures
            final(self).wf(),
            final(self).key_view() == old(self).key_view(),
            final(self).written() == old(self).written(),
            r == Ok::<PollStatus, StreamError>(PollStatus::Ready(0usize))
                ==> final(self).finished() && final(self).pending_view().len() == 0
                && final(self).emitted() == final(self).wire() && decrypt_stream(
                final(self).key_view(),
                final(self).emitted(),
            ) == Some(final(self).written()),
            old(self).pending_view().len() > 0 ==> r == Ok::<PollStatus, StreamError>(
                PollStatus::Pending,
            ) && *final(self) == *old(self),
            // The close never fails: the final chunk is sealed at the
            // current position, which the invariant keeps within bounds.
            r is Ok,
            // Progress is owed: with nothing in flight, either the final
            // chunk gets sealed now, or it already was and the close
            // completes.
            old(self).pending_view().len() == 0 && !old(self).finished() ==> r == Ok::<
                PollStatus,
                StreamError,
            >(PollStatus::Pending) && final(self).finished() && final(self).emitted()
                == old(self).emitted() && final(self).flushed() == old(self).flushed()
                && final(self).pending_view() == seal_chunk(
                old(self).key_view(),
                256 * old(self).flushed(),
                true,
                old(self).written().skip(CHUNK_SIZE * old(self).flushed()),
            ),
            old(self).pending_view().len() == 0 && old(self).finished() ==> r == Ok::<
                PollStatus,
                StreamError,
            >(PollStatus::Ready(0usize)) && *final(self) == *old(self),
    {
        let ghost key = self.key_view();
        if self.pending_is_nonempty() {
            return Ok(PollStatus::Pending);
        }
        if self.finished {
            proof {
                assert(self.emitted@ + self.pending_view() =~= self.emitted@);
            }
            return Ok(PollStatus::Ready(0));
        }
        if self.position > COUNTER_MAX {
            return Err(StreamError::CounterOverflow);
        }
        let nonce = match aead_nonce(self.position, true) {
            Ok(n) => n,
            Err(_) => {
                proof {
                    assert(false);
                }
                return Err(StreamError::CounterOverflow);
            },
        };
        let ghost k = self.flushed();
        let ghost remainder = self.chunk@;
        aead_seal(&self.stream.key_bytes(), &nonce, &mut self.chunk);
        let mut bytes: Vec<u8> = Vec::new();
        core::mem::swap(&mut bytes, &mut self.chunk);
        self.encrypted_chunk = Some(EncryptedChunk { bytes, offset: 0 });
        self.finished = true;
        proof {
            assert(remainder =~= self.written@.skip(CHUNK_SIZE * k));
            assert(crate::nonce::nonce_spec(old(self).position, false).len() == 12);
            crate::nonce::lemma_nonce_unique(
                old(self).position,
                false,
                old(self).position,
                true,
            );
            assert(last_chunk_ok(key, remainder, 256 * k));
            assert(old(self).position as int == 256 * k);
            lemma_decrypt_of_parts(key, self.written@, k, 0);
            assert(self.wire() =~= sealed_prefix(key, self.written@, k, 0) + seal_chunk(
                key,
                256 * k,
                true,
                remainder,
            ));
            assert(self.pending_view() =~= seal_chunk(key, 256 * k, true, remainder));
        }
        Ok(PollStatus::Pending)
    }

    /// Length of the accumulation buffer (how much of the next chunk is
    /// already filled).
    pub closed spec fn buffered_len(self) -> int {
        self.chunk@.len() as int
    }

    /// Whether in-flight ciphertext remains to deliver.
    fn pending_is_nonempty(&self) -> (r: bool)
        requires
            self.wf(),
        ensures
            r == (self.pending_view().len() > 0),
    {
        match &self.encrypted_chunk {
            Some(c) => c.offset < c.bytes.len(),
            None => false,
        }
    }
}

impl Stream {
    /// Starts a cooperative STREAM encryption under `key`; the caller keeps
    /// the sink and delivers each in-flight chunk between poll steps. The
    /// key must never be repeated across streams.
    pub fn encrypt_async(key: PayloadKey) -> (w: PollStreamWriter)
        ensures
            w.wf(),
            w.key_view() == key@,
            w.written() == Seq::<u8>::empty(),
            w.emitted() == Seq::<u8>::empty(),
            !w.finished(),
            w.pending_view().len() == 0,
    {
        let w = PollStreamWriter {
            stream: Stream::new(key),
            chunk: Vec::new(),
            encrypted_chunk: None,
            position: 0,
            finished: false,
            written: Ghost(Seq::empty()),
            emitted: Ghost(Seq::empty()),
        };
        proof {
            assert(w.chunk@ =~= w.written@.skip(0));
            assert(w.wire() =~= sealed_prefix(w.key_view(), w.written@, 0, 0));
        }
        w
    }
}

} // verus!
