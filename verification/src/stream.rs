//! The encrypted stream: a writer that chunks and seals plaintext, and a
//! reader that opens chunks, detects truncation and supports seeking.

use vstd::prelude::*;

use crate::aead::{aead_open, aead_seal, wipe_bytes};
use crate::errors::StreamError;
use crate::model::{
    chunk_ok, chunks_ok, decrypt_stream, encrypt_stream, last_chunk_ok,
    lemma_decrypt_of_encrypt, lemma_num_chunks_closed, lemma_prefix_truncated,
    lemma_stream_chunk, lemma_stream_decompose, lemma_stream_len, num_chunks, open_chunk,
    plain_len_estimate, seal_chunk, sealed_prefix,
};
use crate::nonce::aead_nonce;
use crate::{CHUNK_SIZE, COUNTER_MAX, ENCRYPTED_CHUNK_SIZE, TAG_SIZE};

verus! {

/// The 32-byte symmetric key of exactly one stream. Reusing it across two
/// streams would repeat nonces and void the AEAD's guarantees; its backing
/// memory is overwritten with zeros when the holder is released.
pub struct PayloadKey {
    bytes: [u8; 32],
}

impl View for PayloadKey {
    type V = Seq<u8>;

    closed spec fn view(&self) -> Seq<u8> {
        self.bytes@
    }
}

impl PayloadKey {
    /// Wraps caller-supplied key bytes.
    pub fn new(bytes: [u8; 32]) -> (r: PayloadKey)
        ensures
            r@ == bytes@,
    {
        PayloadKey { bytes }
    }
}

impl Drop for PayloadKey {
    /// Relies on zeroize's `Zeroize` for byte arrays: the key bytes are
    /// overwritten with zeros when the holder is released.
    #[verifier::external_body]
    fn drop(&mut self)
        opens_invariants none
        no_unwind
    {
        zeroize::Zeroize::zeroize(&mut self.bytes);
    }
}

/// `STREAM[key](plaintext)`: the STREAM construction for online
/// authenticated encryption, instantiated with ChaCha20-Poly1305 in 64 KiB
/// chunks and a nonce of 11 bytes of big-endian counter plus one last-block
/// flag byte.
pub struct Stream {
    key: PayloadKey,
}

impl View for Stream {
    type V = Seq<u8>;

    closed spec fn view(&self) -> Seq<u8> {
        self.key@
    }
}

/// Appends `src[from..to]` to `dst`.
pub(crate) fn push_range(dst: &mut Vec<u8>, src: &[u8], from: usize, to: usize)
    requires
        from <= to <= src@.len(),
    ensures
        final(dst)@ == old(dst)@ + src@.subrange(from as int, to as int),
{
    let mut i: usize = from;
    while i < to
        invariant
            from <= i <= to <= src@.len(),
            dst@ == old(dst)@ + src@.subrange(from as int, i as int),
        decreases to - i,
    {
        dst.push(src[i]);
        proof {
            assert(old(dst)@ + src@.subrange(from as int, i as int) + seq![src@[i as int]]
                =~= old(dst)@ + src@.subrange(from as int, i + 1));
        }
        i = i + 1;
    }
    proof {
        assert(dst@ =~= old(dst)@ + src@.subrange(from as int, to as int));
    }
}

/// Appends all of `src` to `dst`.
fn push_all(dst: &mut Vec<u8>, src: &Vec<u8>)
    ensures
        final(dst)@ == old(dst)@ + src@,
{
    push_range(dst, src.as_slice(), 0, src.len());
    proof {
        assert(src@.subrange(0, src@.len() as int) =~= src@);
    }
}

impl Stream {
    /// Wraps a payload key for chunk-at-a-time use.
    pub fn new(key: PayloadKey) -> (s: Stream)
        ensures
            s@ == key@,
    {
        Stream { key }
    }

    /// The raw key bytes, for the sibling modules' sealing calls.
    pub(crate) fn key_bytes(&self) -> (r: &[u8; 32])
        ensures
            r@ == self@,
    {
        &self.key.bytes
    }

    /// Seals one chunk in place at the given position, which must be
    /// chunk-aligned (the low byte of a position is the flag's). Fails
    /// exactly when `position` exceeds the maximum counter, in which case
    /// the buffer is untouched. No per-chunk associated data exists in this
    /// protocol: header integrity comes from the key derivation.
    pub fn encrypt_in_place(&self, position: u128, last_block: bool, buffer: &mut Vec<u8>) -> (r:
        Result<(), StreamError>)
        requires
            old(buffer)@.len() <= CHUNK_SIZE,
            (position as int) % 256 == 0,
        ensures
            position > COUNTER_MAX ==> r == Err::<(), StreamError>(StreamError::CounterOverflow)
                && final(buffer)@ == old(buffer)@,
            position <= COUNTER_MAX ==> {
                &&& r is Ok
                &&& final(buffer)@ == seal_chunk(self@, position as int, last_block, old(buffer)@)
                &&& final(buffer)@.len() == old(buffer)@.len() + TAG_SIZE
                &&& open_chunk(self@, position as int, last_block, final(buffer)@) == Some(
                    old(buffer)@,
                )
                &&& (!last_block && old(buffer)@.len() == CHUNK_SIZE ==> chunk_fact_holds(
                    self@,
                    position as int,
                    old(buffer)@,
                ))
                &&& (last_block ==> last_chunk_ok(self@, old(buffer)@, position as int))
            },
    {
        let nonce = match aead_nonce(position, last_block) {
            Ok(n) => n,
            Err(e) => {
                return Err(e);
            },
        };
        aead_seal(&self.key.bytes, &nonce, buffer);
        proof {
            if last_block {
                assert(crate::nonce::nonce_spec(position, false).len() == 12);
                crate::nonce::lemma_nonce_unique(position, false, position, true);
            }
        }
        Ok(())
    }

    /// Opens one chunk in place at the given chunk-aligned position. Fails
    /// with `CounterOverflow` past the maximum position (buffer untouched),
    /// and with `InvalidData` when the tag does not verify (buffer
    /// unspecified).
    pub fn decrypt_in_place(&self, position: u128, last_block: bool, buffer: &mut Vec<u8>) -> (r:
        Result<(), StreamError>)
        requires
            (position as int) % 256 == 0,
        ensures
            position > COUNTER_MAX ==> r == Err::<(), StreamError>(StreamError::CounterOverflow)
                && final(buffer)@ == old(buffer)@,
            position <= COUNTER_MAX ==> {
                &&& r is Ok <==> open_chunk(self@, position as int, last_block, old(buffer)@)
                    is Some
                &&& (open_chunk(self@, position as int, last_block, old(buffer)@) matches Some(p)
                    ==> final(buffer)@ == p && p.len() + TAG_SIZE == old(buffer)@.len())
                &&& r is Err ==> r == Err::<(), StreamError>(StreamError::InvalidData)
            },
    {
        let nonce = match aead_nonce(position, last_block) {
            Ok(n) => n,
            Err(e) => {
                return Err(e);
            },
        };
        if aead_open(&self.key.bytes, &nonce, buffer) {
            Ok(())
        } else {
            Err(StreamError::InvalidData)
        }
    }

    /// Wraps STREAM encryption under `key` around a byte sink. The key must
    /// never be repeated across streams.
    pub fn encrypt(key: PayloadKey, sink: Vec<u8>) -> (w: StreamWriter)
        ensures
            w.wf(),
            w.key_view() == key@,
            w.written() == Seq::<u8>::empty(),
            w.sink_init() == sink@,
    {
        let w = StreamWriter {
            stream: Stream::new(key),
            sink,
            chunk: Vec::new(),
            position: 0,
            written: Ghost(Seq::empty()),
            init: Ghost(sink@),
        };
        proof {
            assert(w.chunk@ =~= w.written@.skip(0));
            assert(w.sink@ =~= w.init@ + sealed_prefix(w.key_view(), w.written@, 0, 0));
        }
        w
    }
}

impl Drop for StreamReader {
    /// Relies on zeroize's `Zeroize` for `Vec<u8>`: the resident decrypted
    /// chunk, if any, is overwritten with zeros when the reader is
    /// released.
    #[verifier::external_body]
    fn drop(&mut self)
        opens_invariants none
        no_unwind
    {
        if let Some(chunk) = &mut self.chunk {
            zeroize::Zeroize::zeroize(chunk);
        }
    }
}

impl Stream {
    /// Wraps STREAM decryption under `key` around a byte source, reading
    /// from its beginning.
    pub fn decrypt(key: PayloadKey, source: Vec<u8>) -> (r: StreamReader)
        ensures
            r.wf(),
            r.key_view() == key@,
            r.src() == source@,
            r.start_off() == 0,
            r.pos() == 0,
            forall|pt: Seq<u8>, k: int|
                (0 <= k && CHUNK_SIZE * k <= pt.len() && r.stream_ct() == sealed_prefix(
                    r.key_view(),
                    pt,
                    k,
                    0,
                ) && chunks_ok(r.key_view(), pt, k, 0)) ==> #[trigger] r.trunc_inv(pt, k),
    {
        Stream::decrypt_at(key, source, 0)
    }

    /// Wraps STREAM decryption under `key` around a byte source whose
    /// cursor already sits at `offset` — the stream's first byte — as when
    /// header bytes before the payload have already been consumed. The
    /// start position is counted implicitly and resolved on the first seek.
    pub fn decrypt_at(key: PayloadKey, source: Vec<u8>, offset: usize) -> (r: StreamReader)
        requires
            offset <= source@.len(),
        ensures
            r.wf(),
            r.key_view() == key@,
            r.src() == source@,
            r.start_off() == offset as int,
            r.pos() == 0,
            // A fresh reader over a container that is nothing but sealed
            // non-final chunks sits in the truncated-container state: see
            // `StreamReader::read_to_end`.
            forall|pt: Seq<u8>, k: int|
                (0 <= k && CHUNK_SIZE * k <= pt.len() && r.stream_ct() == sealed_prefix(
                    r.key_view(),
                    pt,
                    k,
                    0,
                ) && chunks_ok(r.key_view(), pt, k, 0)) ==> #[trigger] r.trunc_inv(pt, k),
    {
        let r = StreamReader {
            stream: Stream::new(key),
            source,
            cursor: offset,
            start: StartPos::Implicit(0),
            start_ghost: Ghost(offset as int),
            cur_plaintext_pos: 0,
            chunk: None,
            position: 0,
            complete: false,
        };
        proof {
            lemma_num_chunks_closed(r.stream_ct().len() as int);
        }
        r
    }
}

/// The facts `chunk_ok` asks of one flushed chunk, stated directly of a
/// plaintext slice.
pub open spec fn chunk_fact_holds(key: Seq<u8>, pos: int, piece: Seq<u8>) -> bool {
    seal_chunk(key, pos, false, piece).len() == ENCRYPTED_CHUNK_SIZE && open_chunk(
        key,
        pos,
        false,
        seal_chunk(key, pos, false, piece),
    ) == Some(piece)
}

/// Writes an encrypted stream into a byte sink.
///
/// Plaintext accumulates in a 64 KiB buffer; a full buffer is sealed and
/// flushed as a non-final chunk only when more input remains, because the
/// final chunk — which may be shorter, or empty, or a held-back full
/// buffer — can only be emitted by [`StreamWriter::finish`]. Failing to
/// call `finish` leaves the sink without its final chunk, and such a
/// container never decrypts (see
/// [`lemma_unfinished_stream_truncated`]).
pub struct StreamWriter {
    stream: Stream,
    sink: Vec<u8>,
    chunk: Vec<u8>,
    position: u128,
    written: Ghost<Seq<u8>>,
    init: Ghost<Seq<u8>>,
}

impl StreamWriter {
    /// The stream's key.
    pub closed spec fn key_view(self) -> Seq<u8> {
        self.stream.key@
    }

    /// All plaintext accepted so far.
    pub closed spec fn written(self) -> Seq<u8> {
        self.written@
    }

    /// What the sink held when the writer was created.
    pub closed spec fn sink_init(self) -> Seq<u8> {
        self.init@
    }

    /// The ciphertext emitted so far (what follows the sink's initial
    /// contents).
    pub closed spec fn ciphertext(self) -> Seq<u8> {
        self.sink@.skip(self.init@.len() as int)
    }

    /// Number of chunks flushed so far.
    pub closed spec fn flushed(self) -> int {
        (self.position as int) / 256
    }

    /// The writer's invariant.
    pub closed spec fn wf(self) -> bool {
        &&& self.chunk@.len() <= CHUNK_SIZE
        &&& (self.position as int) % 256 == 0
        &&& CHUNK_SIZE * self.flushed() + self.chunk@.len() == self.written@.len()
        &&& self.chunk@ == self.written@.skip(CHUNK_SIZE * self.flushed())
        &&& self.sink@ == self.init@ + sealed_prefix(self.key_view(), self.written@, self.flushed(), 0)
        &&& chunks_ok(self.key_view(), self.written@, self.flushed(), 0)
        &&& (self.flushed() > 0 ==> self.chunk@.len() >= 1)
    }

    /// Bound on the position, recovered from the sink's length.
    proof fn lemma_position_bound(self)
        requires
            self.wf(),
        ensures
            self.position + 256 <= COUNTER_MAX,
            CHUNK_SIZE * self.flushed() <= self.written@.len(),
    {
        crate::model::lemma_sealed_prefix_len_pub(
            self.key_view(),
            self.written@,
            self.flushed(),
            0,
        );
        assert(self.sink@.len() == self.init@.len() + (ENCRYPTED_CHUNK_SIZE as int)
            * self.flushed());
        vstd::std_specs::vec::axiom_spec_len(&self.sink);
        assert(self.sink@.len() <= usize::MAX);
        assert(self.flushed() <= (usize::MAX as int) / (ENCRYPTED_CHUNK_SIZE as int));
        assert(self.position == 256 * self.flushed());
    }

    /// Accepts `buf`, sealing and flushing a full 64 KiB chunk whenever more
    /// input remains. Always consumes the whole of `buf` and reports how
    /// many bytes that was; the chunk counter cannot overflow before the
    /// sink itself is exhausted.
    pub fn write(&mut self, buf: &[u8]) -> (r: Result<usize, StreamError>)
        requires
            old(self).wf(),
        ensures
            final(self).wf(),
            final(self).key_view() == old(self).key_view(),
            final(self).sink_init() == old(self).sink_init(),
            final(self).written() == old(self).written() + buf@,
            r == Ok::<usize, StreamError>(buf@.len() as usize),
            // A write that fits in the buffer — even one that fills it to
            // exactly a chunk — flushes nothing and advances no counter:
            // only `finish` may emit the terminal chunk.
            old(self).written().len() - CHUNK_SIZE * old(self).flushed() + buf@.len()
                <= CHUNK_SIZE ==> final(self).flushed() == old(self).flushed()
                && final(self).ciphertext() == old(self).ciphertext(),
    {
        let ghost key = self.key_view();
        let mut consumed: usize = 0;
        while consumed < buf.len()
            invariant
                self.wf(),
                consumed <= buf@.len(),
                self.key_view() == key,
                self.key_view() == old(self).key_view(),
                self.sink_init() == old(self).sink_init(),
                self.written@ == old(self).written@ + buf@.subrange(0, consumed as int),
                old(self).written().len() - CHUNK_SIZE * old(self).flushed() + buf@.len()
                    <= CHUNK_SIZE ==> self.flushed() == old(self).flushed() && self.sink@ == old(
                    self,
                ).sink@,
            decreases buf@.len() - consumed,
        {
            if self.chunk.len() == CHUNK_SIZE {
                // A full buffer with more input to come: seal and flush it
                // as a non-final chunk.
                proof {
                    self.lemma_position_bound();
                }
                let nonce = match aead_nonce(self.position, false) {
                    Ok(n) => n,
                    Err(_) => {
                        proof {
                            assert(false);
                        }
                        return Err(StreamError::CounterOverflow);
                    },
                };
                let ghost piece = self.chunk@;
                aead_seal(&self.stream.key.bytes, &nonce, &mut self.chunk);
                push_all(&mut self.sink, &self.chunk);
                wipe_bytes(&mut self.chunk);
                proof {
                    let k = self.flushed();
                    assert(piece =~= self.written@.subrange(
                        CHUNK_SIZE * k,
                        CHUNK_SIZE * (k + 1),
                    ));
                    assert(chunk_ok(key, self.written@, 0, k));
                }
                self.position = self.position + 256;
                proof {
                    assert((self.position as int) / 256 == (self.position as int - 256) / 256 + 1)
                        by {
                        vstd::arithmetic::div_mod::lemma_hoist_over_denominator(
                            self.position as int - 256,
                            1,
                            256nat,
                        );
                    }
                    let k = self.flushed();
                    assert(self.chunk@ =~= self.written@.skip(CHUNK_SIZE * k));
                    assert(self.sink@ =~= self.init@ + sealed_prefix(key, self.written@, k, 0));
                    assert forall|i: int| 0 <= i < k implies #[trigger] chunk_ok(
                        key,
                        self.written@,
                        0,
                        i,
                    ) by {
                        assert(chunk_ok(key, old(self).written@ + buf@.subrange(
                            0,
                            consumed as int,
                        ), 0, i));
                    }
                }
            }
            let space = CHUNK_SIZE - self.chunk.len();
            let rest = buf.len() - consumed;
            let to_write = if space < rest {
                space
            } else {
                rest
            };
            let ghost before = self.written@;
            push_range(&mut self.chunk, buf, consumed, consumed + to_write);
            self.written = Ghost(
                self.written@ + buf@.subrange(consumed as int, consumed + to_write),
            );
            proof {
                let k = self.flushed();
                assert(before.subrange(0, CHUNK_SIZE * k) =~= self.written@.subrange(
                    0,
                    CHUNK_SIZE * k,
                ));
                crate::model::lemma_sealed_prefix_stable(key, before, self.written@, k, 0);
                assert forall|i: int| 0 <= i < k implies #[trigger] chunk_ok(
                    key,
                    self.written@,
                    0,
                    i,
                ) by {
                    assert(chunk_ok(key, before, 0, i));
                    assert(self.written@.subrange(CHUNK_SIZE * i, CHUNK_SIZE * (i + 1))
                        =~= before.subrange(CHUNK_SIZE * i, CHUNK_SIZE * (i + 1)));
                }
                assert(self.chunk@ =~= self.written@.skip(CHUNK_SIZE * k));
                assert(old(self).written@ + buf@.subrange(0, consumed as int) + buf@.subrange(
                    consumed as int,
                    consumed + to_write,
                ) =~= old(self).written@ + buf@.subrange(0, consumed + to_write));
            }
            consumed = consumed + to_write;
        }
        proof {
            assert(buf@.subrange(0, buf@.len() as int) =~= buf@);
        }
        Ok(consumed)
    }

    /// Accepts the whole of `buf`; identical to [`StreamWriter::write`],
    /// which already consumes everything it is given.
    pub fn write_all(&mut self, buf: &[u8]) -> (r: Result<(), StreamError>)
        requires
            old(self).wf(),
        ensures
            final(self).wf(),
            final(self).key_view() == old(self).key_view(),
            final(self).sink_init() == old(self).sink_init(),
            final(self).written() == old(self).written() + buf@,
            r is Ok,
    {
        match self.write(buf) {
            Ok(_) => Ok(()),
            Err(e) => Err(e),
        }
    }

    /// Seals whatever the buffer holds — 0 to 64 KiB bytes — as the final
    /// chunk, flushes it, and hands the sink back. Mandatory: without it the
    /// container is indistinguishable from a truncated stream and fails to
    /// decrypt. The returned sink holds exactly the encryption of everything
    /// written, and decrypting it yields that plaintext again.
    pub fn finish(self) -> (r: Result<Vec<u8>, StreamError>)
        requires
            self.wf(),
        ensures
            r matches Ok(ct) && ct@ == self.sink_init() + encrypt_stream(
                self.key_view(),
                self.written(),
            ) && decrypt_stream(self.key_view(), ct@.skip(self.sink_init().len() as int)) == Some(
                self.written(),
            ),
    {
        let ghost key = self.key_view();
        let ghost pt = self.written@;
        let ghost k = self.flushed();
        proof {
            self.lemma_position_bound();
        }
        let StreamWriter { stream, mut sink, mut chunk, position, written, init } = self;
        let nonce = match aead_nonce(position, true) {
            Ok(n) => n,
            Err(_) => {
                proof {
                    assert(false);
                }
                return Err(StreamError::CounterOverflow);
            },
        };
        let ghost remainder = chunk@;
        aead_seal(&stream.key.bytes, &nonce, &mut chunk);
        push_all(&mut sink, &chunk);
        wipe_bytes(&mut chunk);
        proof {
            assert(remainder =~= pt.skip(CHUNK_SIZE * k));
            assert(crate::nonce::nonce_spec(position, false).len() == 12);
            crate::nonce::lemma_nonce_unique(position, false, position, true);
            assert(last_chunk_ok(key, pt.skip(CHUNK_SIZE * k), position as int));
            assert(position as int == 256 * k);
            lemma_stream_decompose(key, pt, k, 0);
            lemma_decrypt_of_encrypt(key, pt, k, 0);
            assert(sink@ =~= init@ + encrypt_stream(key, pt));
            assert(sink@.skip(init@.len() as int) =~= encrypt_stream(key, pt));
        }
        Ok(sink)
    }

    /// Hands the sink back **without** sealing a final chunk. The result is
    /// a truncated container: every byte so far is valid non-final chunks,
    /// and no reader will ever accept it as a complete stream.
    pub fn into_inner(self) -> (r: Vec<u8>)
        requires
            self.wf(),
        ensures
            r@ == self.sink_init() + sealed_prefix(
                self.key_view(),
                self.written(),
                self.flushed(),
                0,
            ),
            decrypt_stream(self.key_view(), r@.skip(self.sink_init().len() as int)) is None,
            chunks_ok(self.key_view(), self.written(), self.flushed(), 0),
            0 <= self.flushed(),
            CHUNK_SIZE * self.flushed() <= self.written().len(),
    {
        proof {
            lemma_unfinished_stream_truncated(self);
            assert(self.sink@.skip(self.init@.len() as int) =~= sealed_prefix(
                self.key_view(),
                self.written@,
                self.flushed(),
                0,
            ));
        }
        let StreamWriter { stream, sink, mut chunk, position, written, init } = self;
        // The buffer still holds pending plaintext: wipe it before release.
        wipe_bytes(&mut chunk);
        sink
    }
}

/// A seek target, measured in plaintext bytes.
pub enum SeekFrom {
    /// From the start of the plaintext.
    Start(u64),
    /// Relative to the current plaintext position.
    Current(i64),
    /// Relative to the end of the plaintext.
    End(i64),
}

/// The position in the underlying source corresponding to the start of the
/// stream. The reader may be handed a source whose cursor already sits past
/// header bytes consumed by the caller, so it counts every byte it reads
/// until the first seek, then computes and caches the absolute start.
enum StartPos {
    /// Bytes consumed so far: subtracting them from the current source
    /// position gives the start.
    Implicit(u64),
    /// The resolved start position.
    Explicit(u64),
}

/// `min` over mathematical integers.
pub open spec fn imin(a: int, b: int) -> int {
    if a < b {
        a
    } else {
        b
    }
}

/// How much plaintext a single read can serve from position `pos`: up to
/// the next chunk boundary or the end of the plaintext, whichever is
/// closer; nothing at or past the end.
pub open spec fn readable_now(pos: int, plaintext: Seq<u8>) -> int {
    if pos >= plaintext.len() {
        0
    } else {
        imin(plaintext.len() as int, (pos / (CHUNK_SIZE as int) + 1) * (CHUNK_SIZE as int)) - pos
    }
}

/// Advancing a chunk-aligned position by one stride advances the chunk
/// index by one.
pub(crate) proof fn lemma_chunks_read_step(before: u128, after: u128)
    requires
        (before as int) % 256 == 0,
        after == before + 256,
    ensures
        (after as int) / 256 == (before as int) / 256 + 1,
        (after as int) % 256 == 0,
{
    vstd::arithmetic::div_mod::lemma_hoist_over_denominator(before as int, 1, 256nat);
    vstd::arithmetic::div_mod::lemma_mod_add_multiples_vanish(before as int, 256);
}

/// A fresh all-zero buffer of length `n`.
fn zero_vec(n: usize) -> (r: Vec<u8>)
    ensures
        r@.len() == n,
{
    let mut v: Vec<u8> = Vec::new();
    let mut i: usize = 0;
    while i < n
        invariant
            v@.len() == i,
            i <= n,
        decreases n - i,
    {
        v.push(0u8);
        i = i + 1;
    }
    v
}

/// Provides access to the plaintext of an encrypted stream.
///
/// One decrypted chunk is resident at a time. Reads pull and open the next
/// ciphertext chunk on demand; a container that ends before its final,
/// last-flagged chunk — including an empty container — is reported as an
/// unexpected end of stream rather than served as truncated plaintext.
/// Seeking converts a plaintext offset into a chunk index and an offset
/// within the chunk, repositions the source, resets the chunk counter, and
/// re-reads the chunk from its beginning.
pub struct StreamReader {
    stream: Stream,
    source: Vec<u8>,
    cursor: usize,
    start: StartPos,
    start_ghost: Ghost<int>,
    cur_plaintext_pos: u64,
    chunk: Option<Vec<u8>>,
    position: u128,
    complete: bool,
}

impl StreamReader {
    /// The stream's key.
    pub closed spec fn key_view(self) -> Seq<u8> {
        self.stream.key@
    }

    /// The whole underlying source.
    pub closed spec fn src(self) -> Seq<u8> {
        self.source@
    }

    /// Offset of the stream's first byte within the source.
    pub closed spec fn start_off(self) -> int {
        self.start_ghost@
    }

    /// The stream's ciphertext: the source from the start offset on.
    pub open spec fn stream_ct(self) -> Seq<u8> {
        self.src().skip(self.start_off())
    }

    /// The plaintext this container decrypts to, if it is well formed.
    pub open spec fn plaintext(self) -> Option<Seq<u8>> {
        decrypt_stream(self.key_view(), self.stream_ct())
    }

    /// Current plaintext position.
    pub closed spec fn pos(self) -> int {
        self.cur_plaintext_pos as int
    }

    /// Number of chunks decrypted (or skipped over) so far.
    pub closed spec fn chunks_read(self) -> int {
        (self.position as int) / 256
    }

    /// The resident decrypted chunk, if any.
    pub closed spec fn chunk_view(self) -> Option<Seq<u8>> {
        match self.chunk {
            Some(c) => Some(c@),
            None => None,
        }
    }

    /// The exact outcome of pulling and opening the next chunk from the
    /// current state, whatever the container holds: nothing to do when a
    /// chunk is resident; at the end of the source, fine if the final chunk
    /// was seen and an unexpected end of stream otherwise; past the counter
    /// bound, counter exhaustion; a short remainder that fails to open as
    /// the final chunk, and a full chunk that opens neither as non-final
    /// nor — retried — as final, are corrupt data.
    pub closed spec fn fill_verdict(self) -> Result<(), StreamError> {
        if self.chunk_view() is Some {
            Ok(())
        } else {
            let rem = self.src().skip(self.cursor as int);
            if rem.len() == 0 {
                if self.complete {
                    Ok(())
                } else {
                    Err(StreamError::UnexpectedEof)
                }
            } else if (self.position as int) > (COUNTER_MAX as int) - 256 {
                Err(StreamError::CounterOverflow)
            } else {
                let pulled = imin(ENCRYPTED_CHUNK_SIZE as int, rem.len() as int);
                if pulled < ENCRYPTED_CHUNK_SIZE {
                    if open_chunk(self.key_view(), self.position as int, true, rem.take(pulled))
                        is Some {
                        Ok(())
                    } else {
                        Err(StreamError::InvalidData)
                    }
                } else {
                    if open_chunk(self.key_view(), self.position as int, false, rem.take(pulled))
                        is Some {
                        Ok(())
                    } else if open_chunk(
                        self.key_view(),
                        self.position as int,
                        true,
                        rem.take(pulled),
                    ) is Some {
                        Ok(())
                    } else {
                        Err(StreamError::InvalidData)
                    }
                }
            }
        }
    }

    /// Mid-consumption state over a truncated container: the stream's
    /// bytes are exactly `k` sealed non-final chunks of `pt` — a writer's
    /// output with the mandatory final chunk missing — the reader has
    /// opened some prefix of them in order, and no final chunk has been
    /// seen. From any such state, consuming the rest ends in
    /// `UnexpectedEof`, never in a truncated-but-successful read.
    pub closed spec fn trunc_inv(self, pt: Seq<u8>, k: int) -> bool {
        &&& 0 <= k
        &&& CHUNK_SIZE * k <= pt.len()
        &&& self.stream_ct() == sealed_prefix(self.key_view(), pt, k, 0)
        &&& chunks_ok(self.key_view(), pt, k, 0)
        &&& !self.complete
        &&& self.chunks_read() <= k
        &&& self.cursor as int == self.start_off() + (ENCRYPTED_CHUNK_SIZE as int)
            * self.chunks_read()
        &&& (self.chunk_view() matches Some(c) ==> self.chunks_read() >= 1 && c == pt.subrange(
            CHUNK_SIZE * (self.chunks_read() - 1),
            CHUNK_SIZE * self.chunks_read(),
        ))
    }

    /// The reader's invariant. Structural clauses hold of any container;
    /// the clauses guarded by `plaintext()` tie the reader's state to the
    /// decrypted plaintext whenever the container is well formed.
    pub closed spec fn wf(self) -> bool {
        let c_int = CHUNK_SIZE as int;
        let e_int = ENCRYPTED_CHUNK_SIZE as int;
        let k = self.chunks_read();
        &&& 0 <= self.start_ghost@ <= self.source@.len()
        &&& self.start_ghost@ <= self.cursor as int <= self.source@.len()
        &&& (self.position as int) % 256 == 0
        &&& self.position <= COUNTER_MAX
        &&& (match self.start {
            StartPos::Implicit(off) => off as int == self.cursor as int - self.start_ghost@,
            StartPos::Explicit(s) => s as int == self.start_ghost@,
        })
        &&& (match self.chunk_view() {
            Some(c) => c.len() <= CHUNK_SIZE && k >= 1 && c_int * (k - 1) <= self.pos() < c_int
                * k,
            None => c_int * k <= self.pos() < c_int * (k + 1),
        })
        &&& (self.plaintext() matches Some(pt) ==> {
            let n = num_chunks(self.stream_ct().len() as int);
            &&& self.cursor as int == self.start_off() + imin(
                e_int * k,
                self.stream_ct().len() as int,
            )
            &&& self.complete == (k >= n)
            &&& (self.chunk_view() matches Some(c) ==> k <= n && c == pt.subrange(
                c_int * (k - 1),
                imin(c_int * k, pt.len() as int),
            ))
        })
    }

    /// What a call serving out of the resident chunk returns, given `space`
    /// bytes of room: bytes up to the end of the chunk, capped by the room
    /// and by the representable plaintext position.
    spec fn serve_count(self, space: int) -> int {
        match self.chunk_view() {
            None => 0,
            Some(c) => {
                let off = self.pos() - (CHUNK_SIZE as int) * (self.chunks_read() - 1);
                if off >= c.len() {
                    0
                } else {
                    imin(imin(c.len() - off, space), u64::MAX - self.cur_plaintext_pos)
                }
            },
        }
    }

    /// Offset of the current position within the resident chunk.
    spec fn chunk_off(self) -> int {
        self.pos() - (CHUNK_SIZE as int) * (self.chunks_read() - 1)
    }

    /// Serves bytes out of the resident chunk into `buf[from..]`, advancing
    /// the plaintext position; once the position crosses a chunk boundary
    /// the resident chunk is dropped, so the next read pulls the following
    /// chunk. Serves nothing when no chunk is resident or the position sits
    /// at or past the end of the resident chunk.
    fn serve_from_chunk(&mut self, buf: &mut Vec<u8>, from: usize) -> (n: usize)
        requires
            old(self).wf(),
            from <= old(buf)@.len(),
        ensures
            final(self).wf(),
            final(self).stream == old(self).stream,
            final(self).source == old(self).source,
            final(self).cursor == old(self).cursor,
            final(self).start_ghost == old(self).start_ghost,
            final(self).start == old(self).start,
            final(self).position == old(self).position,
            final(self).complete == old(self).complete,
            final(buf)@.len() == old(buf)@.len(),
            n == old(self).serve_count(old(buf)@.len() - from),
            forall|j: int|
                from <= j < from + n ==> #[trigger] final(buf)@[j] == old(
                    self,
                ).chunk_view().unwrap()[old(self).chunk_off() + (j - from)],
            forall|j: int|
                0 <= j < old(buf)@.len() && !(from <= j < from + n) ==> #[trigger] final(buf)@[j]
                    == old(buf)@[j],
            final(self).pos() == old(self).pos() + n,
            final(self).chunk_view() == (if n > 0 && (old(self).pos() + n) % (CHUNK_SIZE as int)
                == 0 {
                None
            } else {
                old(self).chunk_view()
            }),
    {
        let ghost c_int = CHUNK_SIZE as int;
        let ghost k = self.chunks_read();
        if self.chunk.is_none() {
            return 0;
        }
        proof {
            vstd::arithmetic::div_mod::lemma_fundamental_div_mod_converse(
                self.pos(),
                c_int,
                k - 1,
                self.chunk_off(),
            );
        }
        let off64: u64 = self.cur_plaintext_pos % (CHUNK_SIZE as u64);
        let off: usize = off64 as usize;
        let headroom: u64 = u64::MAX - self.cur_plaintext_pos;
        let n: usize;
        match &self.chunk {
            Some(c) => {
                if off >= c.len() {
                    return 0;
                }
                let space = buf.len() - from;
                let avail = c.len() - off;
                let mut m: usize = if avail < space {
                    avail
                } else {
                    space
                };
                if (m as u64) > headroom {
                    m = headroom as usize;
                }
                let mut i: usize = 0;
                proof {
                    vstd::std_specs::vec::axiom_spec_len(c);
                    vstd::std_specs::vec::axiom_spec_len(buf);
                }
                while i < m
                    invariant
                        i <= m,
                        off + m <= c@.len(),
                        from + m <= buf@.len(),
                        c@.len() <= usize::MAX,
                        buf@.len() <= usize::MAX,
                        self.chunk_view() == Some(c@),
                        buf@.len() == old(buf)@.len(),
                        forall|j: int|
                            from <= j < from + i ==> #[trigger] buf@[j] == c@[off + (j - from)],
                        forall|j: int|
                            0 <= j < buf@.len() && !(from <= j < from + i) ==> #[trigger] buf@[j]
                                == old(buf)@[j],
                    decreases m - i,
                {
                    let b = c[off + i];
                    buf[from + i] = b;
                    i = i + 1;
                }
                n = m;
            },
            None => {
                n = 0;
            },
        }
        if n > 0 {
            self.cur_plaintext_pos = self.cur_plaintext_pos + (n as u64);
            let next64: u64 = self.cur_plaintext_pos % (CHUNK_SIZE as u64);
            proof {
                if self.pos() < c_int * k {
                    vstd::arithmetic::div_mod::lemma_fundamental_div_mod_converse(
                        self.pos(),
                        c_int,
                        k - 1,
                        self.pos() - c_int * (k - 1),
                    );
                } else {
                    assert(self.pos() == c_int * k);
                    vstd::arithmetic::div_mod::lemma_fundamental_div_mod_converse(
                        self.pos(),
                        c_int,
                        k,
                        0,
                    );
                }
            }
            if next64 == 0 {
                self.drop_chunk();
            }
        }
        n
    }

    /// Pulls and opens the next ciphertext chunk when none is resident.
    ///
    /// A full-size chunk is first tried as a non-final chunk; if that fails
    /// to authenticate, the very same bytes are retried as the final chunk —
    /// the wire format is genuinely ambiguous exactly at multiples of the
    /// full chunk size, and the retry is the documented resolution, not a
    /// recovery. A short chunk can only be the final one. Reaching the end
    /// of the source before a final chunk was seen is an unexpected end of
    /// stream; on a well-formed container this never fails.
    #[verifier::rlimit(100)]
    fn fill_chunk(&mut self) -> (r: Result<(), StreamError>)
        requires
            old(self).wf(),
        ensures
            final(self).wf(),
            final(self).stream == old(self).stream,
            final(self).source == old(self).source,
            final(self).start_ghost == old(self).start_ghost,
            final(self).cur_plaintext_pos == old(self).cur_plaintext_pos,
            r matches Err(e) ==> (e == StreamError::UnexpectedEof || e == StreamError::InvalidData
                || e == StreamError::CounterOverflow),
            r == old(self).fill_verdict(),
            old(self).chunk_view() is Some ==> r is Ok && *final(self) == *old(self),
            forall|pt: Seq<u8>, k: int| #[trigger] old(self).trunc_inv(pt, k) ==> {
                &&& ((old(self).chunk_view() is Some || old(self).chunks_read() < k) ==> (r is Ok
                    && final(self).trunc_inv(pt, k) && final(self).chunk_view() is Some))
                &&& ((old(self).chunk_view() is None && old(self).chunks_read() >= k) ==> r
                    == Err::<(), StreamError>(StreamError::UnexpectedEof))
            },
            old(self).plaintext() matches Some(pt) ==> {
                &&& r is Ok
                &&& (old(self).chunk_view() is None ==> {
                    let n = num_chunks(old(self).stream_ct().len() as int);
                    &&& (old(self).chunks_read() < n ==> final(self).chunk_view() is Some
                        && final(self).chunks_read() == old(self).chunks_read() + 1)
                    &&& (old(self).chunks_read() >= n ==> *final(self) == *old(self))
                })
            },
    {
        if self.chunk.is_some() {
            return Ok(());
        }
        let ghost key = self.key_view();
        let ghost ct = self.stream_ct();
        let ghost k = self.chunks_read();
        let ghost pt_opt = self.plaintext();
        let ghost c_int = CHUNK_SIZE as int;
        let ghost e_int = ENCRYPTED_CHUNK_SIZE as int;
        proof {
            vstd::std_specs::vec::axiom_spec_len(&self.source);
            if pt_opt is Some {
                lemma_stream_len(key, ct, pt_opt.unwrap(), 0);
                lemma_num_chunks_closed(ct.len() as int);
            }
        }
        let avail = self.source.len() - self.cursor;
        let to_pull = if avail < ENCRYPTED_CHUNK_SIZE {
            avail
        } else {
            ENCRYPTED_CHUNK_SIZE
        };
        if to_pull == 0 {
            if self.complete {
                return Ok(());
            } else {
                proof {
                    if pt_opt is Some {
                        // A well-formed container is exhausted only once
                        // every chunk, the final one included, was read.
                        assert(self.cursor as int == self.start_off() + ct.len());
                        assert(false);
                    }
                    assert forall|ptt: Seq<u8>, kk: int|
                        old(self).trunc_inv(ptt, kk) implies old(self).chunks_read()
                        >= kk by {
                        crate::model::lemma_sealed_prefix_len_pub(key, ptt, kk, 0);
                    }
                }
                return Err(StreamError::UnexpectedEof);
            }
        }
        if self.position > COUNTER_MAX - 256 {
            proof {
                if pt_opt is Some {
                    assert(false);
                }
                assert forall|ptt: Seq<u8>, kk: int|
                    !old(self).trunc_inv(ptt, kk) by {
                    if old(self).trunc_inv(ptt, kk) {
                        crate::model::lemma_sealed_prefix_len_pub(key, ptt, kk, 0);
                        assert(256 * kk <= (ENCRYPTED_CHUNK_SIZE as int) * kk);
                        assert(false);
                    }
                }
            }
            return Err(StreamError::CounterOverflow);
        }
        let mut ctbuf: Vec<u8> = Vec::new();
        push_range(&mut ctbuf, self.source.as_slice(), self.cursor, self.cursor + to_pull);
        proof {
            assert(ctbuf@ =~= self.source@.subrange(
                self.cursor as int,
                self.cursor + to_pull,
            ));
            assert(self.source@.skip(self.cursor as int).take(to_pull as int)
                =~= self.source@.subrange(self.cursor as int, self.cursor + to_pull));
            vstd::arithmetic::div_mod::lemma_fundamental_div_mod(self.position as int, 256);
        }
        let ghost pulled_bytes = ctbuf@;
        // Count consumed bytes while the start position is still implicit.
        let counted = match &self.start {
            StartPos::Implicit(off) => Some(*off),
            StartPos::Explicit(_) => None,
        };
        if let Some(off) = counted {
            self.start = StartPos::Implicit(off + (to_pull as u64));
        }
        self.cursor = self.cursor + to_pull;
        let ghost n_spec = num_chunks(ct.len() as int);
        proof {
            if pt_opt is Some {
                assert(k < n_spec);
                lemma_stream_chunk(key, ct, pt_opt.unwrap(), 0, k);
                if k < n_spec - 1 {
                    assert(ctbuf@ =~= ct.subrange(e_int * k, e_int * (k + 1)));
                } else {
                    assert(ctbuf@ =~= ct.subrange(e_int * k, ct.len() as int));
                }
            }
        }
        if to_pull < ENCRYPTED_CHUNK_SIZE {
            // A short chunk can only be the final chunk. (On a truncated
            // container — whole non-final chunks only — a short remainder
            // cannot occur.)
            proof {
                assert forall|ptt: Seq<u8>, kk: int|
                    !old(self).trunc_inv(ptt, kk) by {
                    if old(self).trunc_inv(ptt, kk) {
                        crate::model::lemma_sealed_prefix_len_pub(key, ptt, kk, 0);
                        assert(avail == (ENCRYPTED_CHUNK_SIZE as int) * (kk - k));
                        assert(false);
                    }
                }
            }
            match self.stream.decrypt_in_place(self.position, true, &mut ctbuf) {
                Ok(_) => {
                    self.position = self.position + 256;
                    self.complete = true;
                    self.chunk = Some(ctbuf);
                    proof {
                        lemma_chunks_read_step(old(self).position, self.position);
                    }
                    return Ok(());
                },
                Err(e) => {
                    proof {
                        if pt_opt is Some {
                            assert(false);
                        }
                    }
                    wipe_bytes(&mut ctbuf);
                    return Err(e);
                },
            }
        } else {
            // A full chunk: try non-final first, then retry the same bytes
            // as the final chunk.
            let mut retry: Vec<u8> = Vec::new();
            push_all(&mut retry, &ctbuf);
            proof {
                assert(retry@ =~= pulled_bytes);
            }
            let first = self.stream.decrypt_in_place(self.position, false, &mut ctbuf);
            if first.is_ok() {
                self.position = self.position + 256;
                self.chunk = Some(ctbuf);
                proof {
                    lemma_chunks_read_step(old(self).position, self.position);
                    assert forall|ptt: Seq<u8>, kk: int|
                        old(self).trunc_inv(ptt, kk) implies self.trunc_inv(ptt, kk) by {
                        crate::model::lemma_sealed_prefix_len_pub(key, ptt, kk, 0);
                        assert(avail == (ENCRYPTED_CHUNK_SIZE as int) * (kk - k));
                        assert(k < kk);
                        crate::model::lemma_prefix_chunk_at(key, ptt, kk, 0, k);
                        assert(ct.subrange(e_int * k, e_int * (k + 1)) =~= old(
                            self,
                        ).source@.subrange(
                            old(self).cursor as int,
                            old(self).cursor + ENCRYPTED_CHUNK_SIZE,
                        ));
                        assert(pulled_bytes == seal_chunk(
                            key,
                            256 * k,
                            false,
                            ptt.subrange(CHUNK_SIZE * k, CHUNK_SIZE * (k + 1)),
                        ));
                        assert(crate::model::chunk_ok(key, ptt, 0, k));
                    }
                }
                return Ok(());
            }
            proof {
                // On a truncated container the chunk just pulled is one of
                // its non-final chunks, which opens under the non-final
                // nonce; failing here rules that shape out.
                assert forall|ptt: Seq<u8>, kk: int|
                    !old(self).trunc_inv(ptt, kk) by {
                    if old(self).trunc_inv(ptt, kk) {
                        crate::model::lemma_sealed_prefix_len_pub(key, ptt, kk, 0);
                        assert(avail == (ENCRYPTED_CHUNK_SIZE as int) * (kk - k));
                        assert(k < kk);
                        crate::model::lemma_prefix_chunk_at(key, ptt, kk, 0, k);
                        assert(ct.subrange(e_int * k, e_int * (k + 1)) =~= old(
                            self,
                        ).source@.subrange(
                            old(self).cursor as int,
                            old(self).cursor + ENCRYPTED_CHUNK_SIZE,
                        ));
                        assert(crate::model::chunk_ok(key, ptt, 0, k));
                        assert(false);
                    }
                }
            }
            match self.stream.decrypt_in_place(self.position, true, &mut retry) {
                Ok(_) => {
                    self.position = self.position + 256;
                    self.complete = true;
                    self.chunk = Some(retry);
                    proof {
                        lemma_chunks_read_step(old(self).position, self.position);
                    }
                    return Ok(());
                },
                Err(e) => {
                    proof {
                        if pt_opt is Some {
                            assert(false);
                        }
                    }
                    wipe_bytes(&mut ctbuf);
                    wipe_bytes(&mut retry);
                    return Err(e);
                },
            }
        }
    }

    /// Pulls a chunk if needed, then serves into `buf[from..]`.
    fn read_at(&mut self, buf: &mut Vec<u8>, from: usize) -> (r: Result<usize, StreamError>)
        requires
            old(self).wf(),
            from <= old(buf)@.len(),
        ensures
            final(self).wf(),
            final(self).stream == old(self).stream,
            final(self).source == old(self).source,
            final(self).start_ghost == old(self).start_ghost,
            final(buf)@.len() == old(buf)@.len(),
            r matches Ok(n) ==> n <= old(buf)@.len() - from && final(self).pos() == old(
                self,
            ).pos() + n && (forall|j: int|
                0 <= j < old(buf)@.len() && !(from <= j < from + n) ==> #[trigger] final(buf)@[j]
                    == old(buf)@[j]),
            r is Err ==> final(buf)@ == old(buf)@,
            r matches Err(e) ==> (e == StreamError::UnexpectedEof || e == StreamError::InvalidData
                || e == StreamError::CounterOverflow),
            (r is Err <==> old(self).fill_verdict() is Err),
            r matches Err(e) ==> old(self).fill_verdict() == Err::<(), StreamError>(e),
            old(self).plaintext() matches Some(pt) ==> (r matches Ok(n) && n == imin(
                old(buf)@.len() - from,
                readable_now(old(self).pos(), pt),
            ) && (forall|j: int|
                from <= j < from + n ==> #[trigger] final(buf)@[j] == pt[old(self).pos() + (j
                    - from)])),
            forall|pt: Seq<u8>, k: int| #[trigger] old(self).trunc_inv(pt, k) ==> {
                &&& ((old(self).chunk_view() is Some || old(self).chunks_read() < k) ==> (r
                    matches Ok(n2) && final(self).trunc_inv(pt, k) && (old(buf)@.len() > from
                    ==> n2 >= 1)))
                &&& ((old(self).chunk_view() is None && old(self).chunks_read() >= k) ==> r
                    == Err::<usize, StreamError>(StreamError::UnexpectedEof))
            },
    {
        let ghost key = self.key_view();
        let ghost ct = self.stream_ct();
        let ghost pt_opt = self.plaintext();
        let ghost c_int = CHUNK_SIZE as int;
        match self.fill_chunk() {
            Ok(_) => {},
            Err(e) => {
                return Err(e);
            },
        }
        let ghost mid = *self;
        let n = self.serve_from_chunk(buf, from);
        proof {
            if pt_opt is Some {
                let pt = pt_opt.unwrap();
                let nc = num_chunks(ct.len() as int);
                lemma_stream_len(key, ct, pt, 0);
                let k = mid.chunks_read();
                match mid.chunk_view() {
                    Some(c) => {
                        vstd::arithmetic::div_mod::lemma_fundamental_div_mod_converse(
                            mid.pos(),
                            c_int,
                            k - 1,
                            mid.pos() - c_int * (k - 1),
                        );
                        assert(c == pt.subrange(
                            c_int * (k - 1),
                            imin(c_int * k, pt.len() as int),
                        ));
                        assert(n == mid.serve_count(old(buf)@.len() - from));
                    },
                    None => {
                        assert(k >= nc);
                        assert(mid.pos() >= c_int * k >= c_int * nc >= pt.len());
                        assert(n == 0);
                        assert(readable_now(mid.pos(), pt) == 0);
                    },
                }
            }
            assert forall|ptt: Seq<u8>, kk: int|
                old(self).trunc_inv(ptt, kk) && (old(self).chunk_view() is Some || old(
                    self,
                ).chunks_read() < kk) implies self.trunc_inv(ptt, kk) && (old(buf)@.len() > from
                ==> n >= 1) by {
                vstd::std_specs::vec::axiom_spec_len(&self.source);
                crate::model::lemma_sealed_prefix_len_pub(key, ptt, kk, 0);
                assert(mid.trunc_inv(ptt, kk));
                assert(mid.chunk_view() is Some);
                let kr = mid.chunks_read();
                assert(mid.chunk_view().unwrap().len() == CHUNK_SIZE);
                assert(mid.pos() < (CHUNK_SIZE as int) * kr);
                assert((CHUNK_SIZE as int) * kk <= (ENCRYPTED_CHUNK_SIZE as int) * kk);
                assert(mid.pos() < u64::MAX);
                assert(n == mid.serve_count(old(buf)@.len() - from));
            }
        }
        Ok(n)
    }

    /// Reads plaintext into the front of `buf`, up to the next chunk
    /// boundary. On a well-formed container this never fails, returns 0
    /// exactly at (or past) the end of the plaintext, and otherwise fills
    /// `buf` with the bytes at the current position; a caller wanting more
    /// loops. On a corrupt or truncated container the failing chunk is
    /// reported as `InvalidData`, a missing final chunk as `UnexpectedEof`.
    pub fn read(&mut self, buf: &mut Vec<u8>) -> (r: Result<usize, StreamError>)
        requires
            old(self).wf(),
        ensures
            final(self).wf(),
            final(self).key_view() == old(self).key_view(),
            final(self).src() == old(self).src(),
            final(self).start_off() == old(self).start_off(),
            final(buf)@.len() == old(buf)@.len(),
            // Which condition fails is pinned exactly: reaching the end of
            // the source without the final chunk is an unexpected end of
            // stream, a chunk that fails authentication — a short final
            // chunk directly, a full chunk after the retry — is corrupt
            // data, and a counter past its bound is exhaustion.
            (r is Err <==> old(self).fill_verdict() is Err),
            r matches Err(e) ==> old(self).fill_verdict() == Err::<(), StreamError>(e),
            old(self).plaintext() matches Some(pt) ==> (r matches Ok(n) && n == imin(
                old(buf)@.len() as int,
                readable_now(old(self).pos(), pt),
            ) && (forall|j: int|
                0 <= j < n ==> #[trigger] final(buf)@[j] == pt[old(self).pos() + j]) && (
            forall|j: int|
                n <= j < old(buf)@.len() ==> #[trigger] final(buf)@[j] == old(buf)@[j])
                && final(self).pos() == old(self).pos() + n),
    {
        self.read_at(buf, 0)
    }

    /// Fills the whole of `buf` with plaintext, reading across chunk
    /// boundaries. Fails with `UnexpectedEof` when the stream holds fewer
    /// bytes than asked for; the buffer and position are then unspecified.
    pub fn read_exact(&mut self, buf: &mut Vec<u8>) -> (r: Result<(), StreamError>)
        requires
            old(self).wf(),
        ensures
            final(self).wf(),
            final(self).key_view() == old(self).key_view(),
            final(self).src() == old(self).src(),
            final(self).start_off() == old(self).start_off(),
            final(buf)@.len() == old(buf)@.len(),
            old(self).plaintext() matches Some(pt) ==> {
                &&& (old(self).pos() + old(buf)@.len() <= pt.len() ==> r is Ok && (forall|j: int|
                    0 <= j < old(buf)@.len() ==> #[trigger] final(buf)@[j] == pt[old(self).pos()
                        + j]) && final(self).pos() == old(self).pos() + old(buf)@.len())
                &&& (old(buf)@.len() > 0 && old(self).pos() + old(buf)@.len() > pt.len() ==> r
                    == Err::<(), StreamError>(StreamError::UnexpectedEof))
                &&& (old(buf)@.len() == 0 ==> r is Ok && final(self).pos() == old(self).pos())
            },
            // On a truncated container the only failure is the missing
            // final chunk: an unexpected end of stream.
            forall|pt: Seq<u8>, k: int| #[trigger] old(self).trunc_inv(pt, k) ==> (r is Err
                ==> r == Err::<(), StreamError>(StreamError::UnexpectedEof)),
    {
        let ghost pt_opt = old(self).plaintext();
        let total = buf.len();
        let mut filled: usize = 0;
        while filled < total
            invariant
                self.wf(),
                filled <= total,
                total == buf@.len(),
                self.key_view() == old(self).key_view(),
                self.src() == old(self).src(),
                self.start_off() == old(self).start_off(),
                buf@.len() == old(buf)@.len(),
                pt_opt == self.plaintext(),
                pt_opt matches Some(pt) ==> self.pos() == old(self).pos() + filled && (forall|
                    j: int,
                |
                    0 <= j < filled ==> #[trigger] buf@[j] == pt[old(self).pos() + j]) && (filled
                    > 0 ==> old(self).pos() + filled <= pt.len()),
                forall|pt: Seq<u8>, k: int| #[trigger] old(self).trunc_inv(pt, k)
                    ==> self.trunc_inv(pt, k),
            decreases total - filled,
        {
            let ghost top = *self;
            let n = match self.read_at(buf, filled) {
                Ok(n) => n,
                Err(e) => {
                    proof {
                        if pt_opt is Some {
                            assert(false);
                        }
                        assert forall|ptt: Seq<u8>, kk: int|
                            old(self).trunc_inv(ptt, kk) implies e
                            == StreamError::UnexpectedEof by {
                            assert(top.trunc_inv(ptt, kk));
                        }
                    }
                    return Err(e);
                },
            };
            proof {
                assert forall|ptt: Seq<u8>, kk: int|
                    old(self).trunc_inv(ptt, kk) implies self.trunc_inv(ptt, kk) by {
                    assert(top.trunc_inv(ptt, kk));
                }
            }
            if n == 0 {
                proof {
                    if pt_opt is Some {
                        let pt = pt_opt.unwrap();
                        assert(readable_now(old(self).pos() + filled, pt) == 0);
                        assert(self.pos() >= pt.len());
                    }
                }
                return Err(StreamError::UnexpectedEof);
            }
            filled = filled + n;
        }
        Ok(())
    }

    /// Reads and appends all remaining plaintext to `out`, returning how
    /// many bytes were appended. On a well-formed container this is
    /// everything from the current position to the end of the stream; a
    /// container that stops before its final chunk fails with
    /// `UnexpectedEof` instead of passing off the truncated prefix, and a
    /// corrupt chunk fails with `InvalidData`.
    pub fn read_to_end(&mut self, out: &mut Vec<u8>) -> (r: Result<usize, StreamError>)
        requires
            old(self).wf(),
        ensures
            final(self).wf(),
            final(self).key_view() == old(self).key_view(),
            final(self).src() == old(self).src(),
            final(self).start_off() == old(self).start_off(),
            old(self).plaintext() matches Some(pt) ==> (r matches Ok(n) && n == (if old(
                self,
            ).pos() >= pt.len() {
                0int
            } else {
                pt.len() - old(self).pos()
            }) && final(out)@ == old(out)@ + pt.subrange(
                imin(old(self).pos(), pt.len() as int),
                pt.len() as int,
            ) && final(self).pos() == (if old(self).pos() >= pt.len() {
                old(self).pos()
            } else {
                pt.len() as int
            })),
            // A truncated container — whole non-final chunks with the
            // mandatory final chunk missing — is never passed off as a
            // successfully consumed stream: it fails as an unexpected end.
            forall|pt: Seq<u8>, k: int| #[trigger] old(self).trunc_inv(pt, k) ==> r == Err::<
                usize,
                StreamError,
            >(StreamError::UnexpectedEof),
    {
        let ghost pt_opt = old(self).plaintext();
        let mut scratch = zero_vec(CHUNK_SIZE);
        let mut total: usize = 0;
        let mut done = false;
        while !done
            invariant
                self.wf(),
                scratch@.len() == CHUNK_SIZE,
                self.key_view() == old(self).key_view(),
                self.src() == old(self).src(),
                self.start_off() == old(self).start_off(),
                out@.len() == old(out)@.len() + total,
                pt_opt == self.plaintext(),
                pt_opt matches Some(pt) ==> {
                    &&& out@ == old(out)@ + pt.subrange(
                        imin(old(self).pos(), pt.len() as int),
                        imin(self.pos(), pt.len() as int),
                    )
                    &&& self.pos() == old(self).pos() + total
                    &&& (old(self).pos() < pt.len() ==> self.pos() <= pt.len())
                    &&& (old(self).pos() >= pt.len() ==> self.pos() == old(self).pos())
                    &&& (done ==> (old(self).pos() >= pt.len() ==> total == 0) && (old(
                        self,
                    ).pos() < pt.len() ==> self.pos() == pt.len()))
                },
                forall|pt: Seq<u8>, k: int| #[trigger] old(self).trunc_inv(pt, k)
                    ==> self.trunc_inv(pt, k),
                done ==> (forall|pt: Seq<u8>, k: int| !#[trigger] old(self).trunc_inv(pt, k)),
            decreases (if done {
                0int
            } else {
                1int
            }), u64::MAX as int - self.pos(),
        {
            let ghost top = *self;
            let n = match self.read_at(&mut scratch, 0) {
                Ok(n) => n,
                Err(e) => {
                    proof {
                        if pt_opt is Some {
                            assert(false);
                        }
                        assert forall|ptt: Seq<u8>, kk: int|
                            old(self).trunc_inv(ptt, kk) implies e
                            == StreamError::UnexpectedEof by {
                            assert(top.trunc_inv(ptt, kk));
                        }
                    }
                    wipe_bytes(&mut scratch);
                    return Err(e);
                },
            };
            proof {
                assert forall|ptt: Seq<u8>, kk: int|
                    old(self).trunc_inv(ptt, kk) implies self.trunc_inv(ptt, kk) && n >= 1 by {
                    assert(top.trunc_inv(ptt, kk));
                }
            }
            if n == 0 {
                done = true;
            } else {
                push_range(out, scratch.as_slice(), 0, n);
                proof {
                    vstd::std_specs::vec::axiom_spec_len(out);
                    assert(total + n <= out@.len());
                    if pt_opt is Some {
                        let pt = pt_opt.unwrap();
                        assert(out@ =~= old(out)@ + pt.subrange(
                            imin(old(self).pos(), pt.len() as int),
                            imin(self.pos(), pt.len() as int),
                        ));
                    }
                }
                total = total + n;
            }
        }
        wipe_bytes(&mut scratch);
        proof {
            if pt_opt is Some {
                let pt = pt_opt.unwrap();
                assert(pt.subrange(
                    imin(old(self).pos(), pt.len() as int),
                    imin(self.pos(), pt.len() as int),
                ) =~= pt.subrange(imin(old(self).pos(), pt.len() as int), pt.len() as int));
            }
        }
        Ok(total)
    }

    /// Resolves and caches the absolute start of the stream within the
    /// source: the current source position minus the bytes read so far.
    fn resolve_start(&mut self) -> (s: u64)
        requires
            old(self).wf(),
        ensures
            final(self).wf(),
            s as int == old(self).start_off(),
            final(self).start == StartPos::Explicit(s),
            final(self).stream == old(self).stream,
            final(self).source == old(self).source,
            final(self).cursor == old(self).cursor,
            final(self).start_ghost == old(self).start_ghost,
            final(self).cur_plaintext_pos == old(self).cur_plaintext_pos,
            final(self).chunk == old(self).chunk,
            final(self).position == old(self).position,
            final(self).complete == old(self).complete,
    {
        let s: u64 = match &self.start {
            StartPos::Implicit(off) => (self.cursor as u64) - *off,
            StartPos::Explicit(e) => *e,
        };
        self.start = StartPos::Explicit(s);
        s
    }

    /// The plaintext offset a seek request denotes, if it is representable:
    /// `Start` is absolute, `Current` is relative to the position, `End` is
    /// relative to the plaintext length computed from the container length
    /// (ciphertext length minus one tag per chunk).
    pub open spec fn seek_target_spec(self, pos: SeekFrom) -> Option<int> {
        match pos {
            SeekFrom::Start(o) => Some(o as int),
            SeekFrom::Current(o) => {
                let t = self.pos() + o;
                if 0 <= t <= u64::MAX {
                    Some(t)
                } else {
                    None
                }
            },
            SeekFrom::End(o) => {
                let t = plain_len_estimate(self.stream_ct().len() as int) + o;
                if 0 <= t <= u64::MAX {
                    Some(t)
                } else {
                    None
                }
            },
        }
    }

    /// Seeks to a plaintext offset.
    ///
    /// A target inside the resident chunk only moves the cursor. Otherwise
    /// the resident chunk is dropped, the source is repositioned to the
    /// target chunk's first byte, the chunk counter is reset to the target
    /// chunk's index, and — chunk decryption being all-or-nothing — the
    /// chunk is re-read and decrypted from its beginning, discarding the
    /// bytes before the target. An offset before the logical start of the
    /// stream (or beyond what an offset can represent) is rejected as
    /// `InvalidOffset`; on a well-formed container any target up to the
    /// plaintext length succeeds.
    #[verifier::rlimit(100)]
    pub fn seek(&mut self, pos: SeekFrom) -> (r: Result<u64, StreamError>)
        requires
            old(self).wf(),
        ensures
            final(self).wf(),
            final(self).key_view() == old(self).key_view(),
            final(self).src() == old(self).src(),
            final(self).start_off() == old(self).start_off(),
            (old(self).seek_target_spec(pos) is None <==> r == Err::<u64, StreamError>(
                StreamError::InvalidOffset,
            )),
            // A rejected offset leaves the reader where it was: position
            // and resident chunk untouched, so it stays usable.
            r == Err::<u64, StreamError>(StreamError::InvalidOffset) ==> final(self).pos() == old(
                self,
            ).pos() && final(self).chunk_view() == old(self).chunk_view(),
            old(self).plaintext() matches Some(pt) ==> (old(self).seek_target_spec(pos)
                matches Some(t) ==> {
                &&& ((t <= pt.len() || t % (CHUNK_SIZE as int) == 0 || t / (CHUNK_SIZE as int)
                    == old(self).pos() / (CHUNK_SIZE as int)) ==> r == Ok::<u64, StreamError>(
                    t as u64,
                ) && final(self).pos() == t)
                &&& (!(t <= pt.len() || t % (CHUNK_SIZE as int) == 0 || t / (CHUNK_SIZE as int)
                    == old(self).pos() / (CHUNK_SIZE as int)) ==> r == Err::<u64, StreamError>(
                    StreamError::UnexpectedEof,
                ))
            }),
    {
        let ghost key = self.key_view();
        let ghost ct = self.stream_ct();
        let ghost pt_opt = self.plaintext();
        let ghost c_int = CHUNK_SIZE as int;
        let ghost e_int = ENCRYPTED_CHUNK_SIZE as int;
        proof {
            vstd::std_specs::vec::axiom_spec_len(&self.source);
            if pt_opt is Some {
                lemma_stream_len(key, ct, pt_opt.unwrap(), 0);
            }
            lemma_num_chunks_closed(ct.len() as int);
        }
        let start_u = self.resolve_start();
        // The stream's ciphertext length and chunk count.
        let sl: usize = self.source.len() - (start_u as usize);
        let nch: usize = if sl == 0 {
            1
        } else {
            sl / ENCRYPTED_CHUNK_SIZE + (if sl % ENCRYPTED_CHUNK_SIZE != 0 {
                1
            } else {
                0
            })
        };
        proof {
            assert(nch as int == num_chunks(ct.len() as int));
        }
        let target_opt: Option<u64> = match pos {
            SeekFrom::Start(o) => Some(o),
            SeekFrom::Current(o) => {
                let t: i128 = (self.cur_plaintext_pos as i128) + (o as i128);
                if t < 0 || t > (u64::MAX as i128) {
                    None
                } else {
                    Some(t as u64)
                }
            },
            SeekFrom::End(o) => {
                let tags: usize = nch * TAG_SIZE;
                let pt_end: usize = if sl >= tags {
                    sl - tags
                } else {
                    0
                };
                proof {
                    assert(pt_end as int == plain_len_estimate(ct.len() as int));
                }
                let t: i128 = (pt_end as i128) + (o as i128);
                if t < 0 || t > (u64::MAX as i128) {
                    None
                } else {
                    Some(t as u64)
                }
            },
        };
        let target: u64 = match target_opt {
            None => {
                return Err(StreamError::InvalidOffset);
            },
            Some(t) => t,
        };
        let cur_chunk: u64 = self.cur_plaintext_pos / (CHUNK_SIZE as u64);
        let target_chunk: u64 = target / (CHUNK_SIZE as u64);
        proof {
            vstd::arithmetic::div_mod::lemma_fundamental_div_mod(target as int, c_int);
            vstd::arithmetic::div_mod::lemma_fundamental_div_mod(self.pos(), c_int);
        }
        if target_chunk == cur_chunk {
            // Reposition within the current chunk.
            self.cur_plaintext_pos = target;
            return Ok(target);
        }
        // Jump to the target chunk's first byte and reset the counter.
        self.drop_chunk();
        proof {
            assert((target_chunk as int) * (ENCRYPTED_CHUNK_SIZE as int) <= 0xffffffff_ffffffff
                * (ENCRYPTED_CHUNK_SIZE as int)) by (nonlinear_arith)
                requires
                    0 <= target_chunk as int <= 0xffffffff_ffffffff,
            ;
        }
        let want: u128 = (start_u as u128) + (target_chunk as u128) * (ENCRYPTED_CHUNK_SIZE
            as u128);
        let srclen = self.source.len();
        if want >= (srclen as u128) {
            self.cursor = srclen;
        } else {
            self.cursor = want as usize;
        }
        self.position = (target_chunk as u128) * 256;
        self.cur_plaintext_pos = target_chunk * (CHUNK_SIZE as u64);
        self.complete = (target_chunk as u128) >= (nch as u128);
        proof {
            let tc = target_chunk as int;
            assert(256 * tc <= 65536 * tc);
            assert(65536 * tc <= target as int);
            vstd::arithmetic::div_mod::lemma_fundamental_div_mod_converse(
                self.position as int,
                256,
                tc,
                0,
            );
            vstd::arithmetic::div_mod::lemma_fundamental_div_mod_converse(self.pos(), c_int, tc, 0);
            if pt_opt is Some {
                let pt = pt_opt.unwrap();
                let n_spec = num_chunks(ct.len() as int);
                if (want as int) >= srclen as int {
                    assert(e_int * tc >= ct.len());
                    assert(self.cursor as int == self.start_off() + imin(
                        e_int * tc,
                        ct.len() as int,
                    ));
                } else {
                    assert(self.cursor as int == self.start_off() + e_int * tc);
                }
                assert(self.complete == (tc >= n_spec));
            }
            assert(self.wf());
        }
        let offset_in_chunk: u64 = target % (CHUNK_SIZE as u64);
        if offset_in_chunk > 0 {
            // Re-read the chunk from its start and discard the bytes before
            // the target.
            let want_off: usize = offset_in_chunk as usize;
            let mut scratch = zero_vec(want_off);
            let mut got: usize = 0;
            while got < want_off
                invariant
                    self.wf(),
                    got <= want_off,
                    0 < want_off < CHUNK_SIZE,
                    scratch@.len() == want_off,
                    self.key_view() == old(self).key_view(),
                    self.src() == old(self).src(),
                    self.start_off() == old(self).start_off(),
                    pt_opt == self.plaintext(),
                    pt_opt == old(self).plaintext(),
                    old(self).seek_target_spec(pos) == Some(target as int),
                    self.pos() == (target_chunk as int) * (CHUNK_SIZE as int) + got,
                    target as int == (target_chunk as int) * (CHUNK_SIZE as int) + (
                    want_off as int),
                    (target as int) / (CHUNK_SIZE as int) == target_chunk as int,
                    (target as int) % (CHUNK_SIZE as int) == want_off as int,
                    (target_chunk as int) != old(self).pos() / (CHUNK_SIZE as int),
                    pt_opt matches Some(pt) ==> (target <= pt.len() ==> self.pos() <= pt.len())
                        && (got > 0 ==> self.pos() <= pt.len()),
                decreases want_off - got,
            {
                let n = match self.read_at(&mut scratch, got) {
                    Ok(n) => n,
                    Err(e) => {
                        proof {
                            if pt_opt is Some {
                                assert(false);
                            }
                        }
                        wipe_bytes(&mut scratch);
                        return Err(e);
                    },
                };
                if n == 0 {
                    proof {
                        if pt_opt is Some {
                            let pt = pt_opt.unwrap();
                            assert(readable_now(self.pos(), pt) == 0);
                            if target <= pt.len() as int {
                                assert(self.pos() < target <= pt.len());
                                assert(false);
                            }
                        }
                    }
                    wipe_bytes(&mut scratch);
                    return Err(StreamError::UnexpectedEof);
                }
                got = got + n;
            }
            wipe_bytes(&mut scratch);
        }
        Ok(target)
    }

    /// Drops the resident chunk, wiping its secret contents first.
    fn drop_chunk(&mut self)
        ensures
            final(self).chunk_view() is None,
            final(self).stream == old(self).stream,
            final(self).source == old(self).source,
            final(self).cursor == old(self).cursor,
            final(self).start_ghost == old(self).start_ghost,
            final(self).start == old(self).start,
            final(self).cur_plaintext_pos == old(self).cur_plaintext_pos,
            final(self).position == old(self).position,
            final(self).complete == old(self).complete,
    {
        match self.chunk.take() {
            Some(mut c) => {
                wipe_bytes(&mut c);
            },
            None => {},
        }
    }
}

/// A writer that was never finished has emitted only non-final chunks, and
/// such a container never decrypts: consuming it reports an unexpected end
/// of stream instead of quietly returning the truncated plaintext.
pub proof fn lemma_unfinished_stream_truncated(w: StreamWriter)
    requires
        w.wf(),
    ensures
        decrypt_stream(w.key_view(), w.ciphertext()) is None,
{
    w.lemma_position_bound();
    lemma_prefix_truncated(w.key_view(), w.written(), w.flushed(), 0);
    assert(w.ciphertext() =~= sealed_prefix(w.key_view(), w.written(), w.flushed(), 0));
}

} // verus!
