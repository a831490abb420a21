//! The mathematical model of a chunked stream.
//!
//! `encrypt_stream_from` is the ciphertext a writer produces for a given
//! plaintext: every chunk but the last sealed full-size with the last-block
//! flag clear, the last chunk (0 to 64 KiB, possibly empty) sealed with the
//! flag set. `decrypt_stream_from` is what a reader makes of a container:
//! the plaintext when every chunk authenticates under its expected nonce and
//! the container ends exactly at the final, last-flagged chunk, and nothing
//! otherwise. A container whose length is a multiple of the full chunk size
//! is genuinely ambiguous at its last chunk: it is tried first as a
//! non-final chunk and, when that fails, retried as the final one, exactly
//! as the wire format demands.

use vstd::prelude::*;

use crate::aead::{opened, sealed};
use crate::nonce::nonce_spec;
use crate::{CHUNK_SIZE, ENCRYPTED_CHUNK_SIZE, TAG_SIZE};

verus! {

/// The ciphertext of one chunk at position `pos`.
pub open spec fn seal_chunk(key: Seq<u8>, pos: int, last_block: bool, plaintext: Seq<u8>) -> Seq<
    u8,
> {
    sealed(key, nonce_spec(pos as u128, last_block), plaintext)
}

/// The result of opening one chunk at position `pos`.
pub open spec fn open_chunk(key: Seq<u8>, pos: int, last_block: bool, ciphertext: Seq<u8>) -> Option<
    Seq<u8>,
> {
    opened(key, nonce_spec(pos as u128, last_block), ciphertext)
}

/// The ciphertext of a whole stream whose first chunk sits at position
/// `pos`: full non-final chunks, then one final chunk of up to 64 KiB.
pub open spec fn encrypt_stream_from(key: Seq<u8>, plaintext: Seq<u8>, pos: int) -> Seq<u8>
    decreases plaintext.len(),
{
    if plaintext.len() > CHUNK_SIZE {
        seal_chunk(key, pos, false, plaintext.take(CHUNK_SIZE as int)) + encrypt_stream_from(
            key,
            plaintext.skip(CHUNK_SIZE as int),
            pos + 256,
        )
    } else {
        seal_chunk(key, pos, true, plaintext)
    }
}

/// The ciphertext of a whole stream, first chunk at position 0.
pub open spec fn encrypt_stream(key: Seq<u8>, plaintext: Seq<u8>) -> Seq<u8> {
    encrypt_stream_from(key, plaintext, 0)
}

/// The plaintext of a container whose first chunk sits at position `pos`,
/// when the container is well formed; `None` when it is corrupt, truncated
/// (no final chunk, including the empty container), or carries data past
/// its final chunk.
pub open spec fn decrypt_stream_from(key: Seq<u8>, ciphertext: Seq<u8>, pos: int) -> Option<
    Seq<u8>,
>
    decreases ciphertext.len(),
{
    if ciphertext.len() == 0 {
        None
    } else if ciphertext.len() > ENCRYPTED_CHUNK_SIZE {
        match open_chunk(key, pos, false, ciphertext.take(ENCRYPTED_CHUNK_SIZE as int)) {
            Some(p) => if p.len() == CHUNK_SIZE {
                match decrypt_stream_from(key, ciphertext.skip(ENCRYPTED_CHUNK_SIZE as int), pos + 256) {
                    Some(rest) => Some(p + rest),
                    None => None,
                }
            } else {
                None
            },
            None => None,
        }
    } else if ciphertext.len() == ENCRYPTED_CHUNK_SIZE {
        if open_chunk(key, pos, false, ciphertext) is Some {
            // The chunk passes as non-final, so the stream claims to
            // continue, yet the container ends here: truncated.
            None
        } else {
            match open_chunk(key, pos, true, ciphertext) {
                Some(p) => if p.len() == CHUNK_SIZE {
                    Some(p)
                } else {
                    None
                },
                None => None,
            }
        }
    } else {
        match open_chunk(key, pos, true, ciphertext) {
            Some(p) => if p.len() + TAG_SIZE == ciphertext.len() {
                Some(p)
            } else {
                None
            },
            None => None,
        }
    }
}

/// The plaintext of a container, first chunk at position 0.
pub open spec fn decrypt_stream(key: Seq<u8>, ciphertext: Seq<u8>) -> Option<Seq<u8>> {
    decrypt_stream_from(key, ciphertext, 0)
}

/// How many chunks a container of `len` ciphertext bytes spans. A stream
/// always has at least one chunk, so an empty container still "expects" one:
/// that is what makes it count as truncated.
pub open spec fn num_chunks(len: int) -> int
    decreases len,
{
    if len <= ENCRYPTED_CHUNK_SIZE {
        1
    } else {
        1 + num_chunks(len - ENCRYPTED_CHUNK_SIZE)
    }
}

/// The plaintext length a container of `len` ciphertext bytes would yield if
/// well formed: the ciphertext length minus one tag per chunk.
pub open spec fn plain_len_estimate(len: int) -> int {
    if len >= TAG_SIZE * num_chunks(len) {
        len - TAG_SIZE * num_chunks(len)
    } else {
        0
    }
}

/// What a writer knows of one already-flushed chunk: sealing the `i`-th
/// 64 KiB slice of `plaintext` at its position gave a full-size wire chunk,
/// and opening that wire chunk gives the slice back.
pub open spec fn chunk_ok(key: Seq<u8>, plaintext: Seq<u8>, base: int, i: int) -> bool {
    seal_chunk(
        key,
        base + 256 * i,
        false,
        plaintext.subrange(CHUNK_SIZE * i, CHUNK_SIZE * (i + 1)),
    ).len() == ENCRYPTED_CHUNK_SIZE && open_chunk(
        key,
        base + 256 * i,
        false,
        seal_chunk(
            key,
            base + 256 * i,
            false,
            plaintext.subrange(CHUNK_SIZE * i, CHUNK_SIZE * (i + 1)),
        ),
    ) == Some(plaintext.subrange(CHUNK_SIZE * i, CHUNK_SIZE * (i + 1)))
}

/// `chunk_ok` for every one of the first `k` chunks.
pub open spec fn chunks_ok(key: Seq<u8>, plaintext: Seq<u8>, k: int, base: int) -> bool {
    forall|i: int| 0 <= i < k ==> #[trigger] chunk_ok(key, plaintext, base, i)
}

/// What a writer knows of its final chunk once sealed: the wire chunk is the
/// remainder plus a tag, it opens as a final chunk to the remainder, and it
/// does not pass as a non-final chunk.
pub open spec fn last_chunk_ok(key: Seq<u8>, remainder: Seq<u8>, pos: int) -> bool {
    seal_chunk(key, pos, true, remainder).len() == remainder.len() + TAG_SIZE && open_chunk(
        key,
        pos,
        true,
        seal_chunk(key, pos, true, remainder),
    ) == Some(remainder) && open_chunk(key, pos, false, seal_chunk(key, pos, true, remainder))
        is None
}

/// The concatenated wire chunks of the first `k` full 64 KiB slices of
/// `plaintext`, sealed non-final at consecutive positions from `base`.
pub open spec fn sealed_prefix(key: Seq<u8>, plaintext: Seq<u8>, k: int, base: int) -> Seq<u8>
    decreases k,
{
    if k <= 0 {
        Seq::empty()
    } else {
        sealed_prefix(key, plaintext, k - 1, base) + seal_chunk(
            key,
            base + 256 * (k - 1),
            false,
            plaintext.subrange(CHUNK_SIZE * (k - 1), CHUNK_SIZE * k),
        )
    }
}

/// Length of a sealed prefix whose `k` chunks are known to be full size.
pub proof fn lemma_sealed_prefix_len_pub(key: Seq<u8>, plaintext: Seq<u8>, k: int, base: int)
    requires
        0 <= k,
        chunks_ok(key, plaintext, k, base),
    ensures
        sealed_prefix(key, plaintext, k, base).len() == ENCRYPTED_CHUNK_SIZE * k,
{
    lemma_prefix_len(key, plaintext, k, base);
}

/// A sealed prefix reads only the first `k` chunks of the plaintext, so it
/// is unchanged by anything appended after them.
pub proof fn lemma_sealed_prefix_stable(
    key: Seq<u8>,
    a: Seq<u8>,
    b: Seq<u8>,
    k: int,
    base: int,
)
    requires
        0 <= k,
        CHUNK_SIZE * k <= a.len(),
        CHUNK_SIZE * k <= b.len(),
        a.subrange(0, CHUNK_SIZE * k) == b.subrange(0, CHUNK_SIZE * k),
    ensures
        sealed_prefix(key, a, k, base) == sealed_prefix(key, b, k, base),
    decreases k,
{
    let c = CHUNK_SIZE as int;
    if k > 0 {
        assert(a.subrange(0, c * (k - 1)) =~= a.subrange(0, c * k).subrange(0, c * (k - 1)));
        assert(b.subrange(0, c * (k - 1)) =~= b.subrange(0, c * k).subrange(0, c * (k - 1)));
        lemma_sealed_prefix_stable(key, a, b, k - 1, base);
        assert(a.subrange(c * (k - 1), c * k) =~= a.subrange(0, c * k).subrange(
            c * (k - 1),
            c * k,
        ));
        assert(b.subrange(c * (k - 1), c * k) =~= b.subrange(0, c * k).subrange(
            c * (k - 1),
            c * k,
        ));
    }
}

/// Peeling the first chunk off a sealed prefix.
proof fn lemma_prefix_cons(key: Seq<u8>, plaintext: Seq<u8>, k: int, base: int)
    requires
        1 <= k,
        CHUNK_SIZE * k <= plaintext.len(),
    ensures
        sealed_prefix(key, plaintext, k, base) == seal_chunk(
            key,
            base,
            false,
            plaintext.take(CHUNK_SIZE as int),
        ) + sealed_prefix(key, plaintext.skip(CHUNK_SIZE as int), k - 1, base + 256),
    decreases k,
{
    let c = CHUNK_SIZE as int;
    if k == 1 {
        assert(plaintext.subrange(0, c) =~= plaintext.take(c));
        assert(sealed_prefix(key, plaintext, 0, base) =~= Seq::<u8>::empty());
        assert(Seq::<u8>::empty() + seal_chunk(key, base, false, plaintext.take(c)) =~= seal_chunk(
            key,
            base,
            false,
            plaintext.take(c),
        ) + Seq::<u8>::empty());
    } else {
        lemma_prefix_cons(key, plaintext, k - 1, base);
        let tail = plaintext.skip(c);
        assert(tail.subrange(c * (k - 2), c * (k - 1)) =~= plaintext.subrange(
            c * (k - 1),
            c * k,
        ));
        assert(base + 256 + 256 * (k - 2) == base + 256 * (k - 1));
        assert((seal_chunk(key, base, false, plaintext.take(c)) + sealed_prefix(
            key,
            tail,
            k - 2,
            base + 256,
        )) + seal_chunk(key, base + 256 * (k - 1), false, plaintext.subrange(c * (k - 1), c * k))
            =~= seal_chunk(key, base, false, plaintext.take(c)) + (sealed_prefix(
            key,
            tail,
            k - 2,
            base + 256,
        ) + seal_chunk(
            key,
            base + 256 + 256 * (k - 2),
            false,
            tail.subrange(c * (k - 2), c * (k - 1)),
        )));
    }
}

/// Length of a sealed prefix whose chunks are known to be full size.
proof fn lemma_prefix_len(key: Seq<u8>, plaintext: Seq<u8>, k: int, base: int)
    requires
        0 <= k,
        chunks_ok(key, plaintext, k, base),
    ensures
        sealed_prefix(key, plaintext, k, base).len() == ENCRYPTED_CHUNK_SIZE * k,
    decreases k,
{
    if k > 0 {
        assert(chunk_ok(key, plaintext, base, k - 1));
        lemma_prefix_len(key, plaintext, k - 1, base);
    }
}

/// A writer's ciphertext, decomposed: the flushed prefix of `k` full chunks
/// followed by the final chunk holding the remainder.
pub proof fn lemma_stream_decompose(key: Seq<u8>, plaintext: Seq<u8>, k: int, base: int)
    requires
        0 <= k,
        CHUNK_SIZE * k <= plaintext.len(),
        plaintext.len() <= CHUNK_SIZE * (k + 1),
        k > 0 ==> CHUNK_SIZE * k < plaintext.len(),
    ensures
        encrypt_stream_from(key, plaintext, base) == sealed_prefix(key, plaintext, k, base)
            + seal_chunk(key, base + 256 * k, true, plaintext.skip(CHUNK_SIZE * k)),
    decreases k,
{
    let c = CHUNK_SIZE as int;
    if k == 0 {
        assert(plaintext.skip(0) =~= plaintext);
        assert(sealed_prefix(key, plaintext, 0, base) =~= Seq::<u8>::empty());
        assert(Seq::<u8>::empty() + seal_chunk(key, base, true, plaintext) =~= seal_chunk(
            key,
            base,
            true,
            plaintext,
        ));
    } else {
        let tail = plaintext.skip(c);
        lemma_stream_decompose(key, tail, k - 1, base + 256);
        lemma_prefix_cons(key, plaintext, k, base);
        assert(tail.skip(c * (k - 1)) =~= plaintext.skip(c * k));
        assert(base + 256 + 256 * (k - 1) == base + 256 * k);
        assert((seal_chunk(key, base, false, plaintext.take(c)) + sealed_prefix(
            key,
            tail,
            k - 1,
            base + 256,
        )) + seal_chunk(key, base + 256 * k, true, plaintext.skip(c * k)) =~= seal_chunk(
            key,
            base,
            false,
            plaintext.take(c),
        ) + (sealed_prefix(key, tail, k - 1, base + 256) + seal_chunk(
            key,
            base + 256 + 256 * (k - 1),
            true,
            tail.skip(c * (k - 1)),
        )));
    }
}

/// Round trip: a ciphertext built from `k` full chunks and a final
/// remainder, each of which is known to seal and open correctly, decrypts
/// back to the plaintext it was built from; its length is also pinned down.
pub proof fn lemma_decrypt_of_encrypt(key: Seq<u8>, plaintext: Seq<u8>, k: int, base: int)
    requires
        0 <= k,
        CHUNK_SIZE * k <= plaintext.len(),
        plaintext.len() <= CHUNK_SIZE * (k + 1),
        k > 0 ==> CHUNK_SIZE * k < plaintext.len(),
        chunks_ok(key, plaintext, k, base),
        last_chunk_ok(key, plaintext.skip(CHUNK_SIZE * k), base + 256 * k),
    ensures
        decrypt_stream_from(key, encrypt_stream_from(key, plaintext, base), base) == Some(
            plaintext,
        ),
        encrypt_stream_from(key, plaintext, base).len() == ENCRYPTED_CHUNK_SIZE * k + (
        plaintext.len() - CHUNK_SIZE * k) + TAG_SIZE,
    decreases k,
{
    let c = CHUNK_SIZE as int;
    let e = ENCRYPTED_CHUNK_SIZE as int;
    let ct = encrypt_stream_from(key, plaintext, base);
    if k == 0 {
        assert(plaintext.skip(0) =~= plaintext);
        assert(ct == seal_chunk(key, base, true, plaintext));
        assert(ct.len() == plaintext.len() + TAG_SIZE);
        if ct.len() == e {
            assert(open_chunk(key, base, false, ct) is None);
            assert(open_chunk(key, base, true, ct) == Some(plaintext));
        } else {
            assert(ct.len() < e);
            assert(open_chunk(key, base, true, ct) == Some(plaintext));
        }
    } else {
        let tail = plaintext.skip(c);
        let piece = plaintext.subrange(0, c);
        assert(chunk_ok(key, plaintext, base, 0));
        assert(piece =~= plaintext.take(c));
        let c0 = seal_chunk(key, base, false, plaintext.take(c));
        assert(c0.len() == e);
        // Shift the per-chunk facts to the tail.
        assert forall|i: int| 0 <= i < k - 1 implies #[trigger] chunk_ok(
            key,
            tail,
            base + 256,
            i,
        ) by {
            assert(chunk_ok(key, plaintext, base, i + 1));
            assert(tail.subrange(c * i, c * (i + 1)) =~= plaintext.subrange(
                c * (i + 1),
                c * (i + 2),
            ));
            assert(base + 256 + 256 * i == base + 256 * (i + 1));
        }
        assert(tail.skip(c * (k - 1)) =~= plaintext.skip(c * k));
        assert(base + 256 + 256 * (k - 1) == base + 256 * k);
        lemma_decrypt_of_encrypt(key, tail, k - 1, base + 256);
        let rest = encrypt_stream_from(key, tail, base + 256);
        assert(ct == c0 + rest);
        assert(ct.len() > e);
        assert(ct.take(e) =~= c0);
        assert(ct.skip(e) =~= rest);
        assert(open_chunk(key, base, false, ct.take(e)) == Some(piece));
        assert(decrypt_stream_from(key, ct.skip(e), base + 256) == Some(tail));
        assert(piece + tail =~= plaintext);
    }
}

/// Round trip for a container assembled from parts: `k` full non-final
/// chunks followed by one final chunk, each known to seal and open
/// correctly, decrypts back to the plaintext — also when the final chunk is
/// empty behind held-over full chunks, an encoding the cooperative writer
/// can produce.
pub proof fn lemma_decrypt_of_parts(key: Seq<u8>, plaintext: Seq<u8>, k: int, base: int)
    requires
        0 <= k,
        CHUNK_SIZE * k <= plaintext.len(),
        plaintext.len() <= CHUNK_SIZE * (k + 1),
        chunks_ok(key, plaintext, k, base),
        last_chunk_ok(key, plaintext.skip(CHUNK_SIZE * k), base + 256 * k),
    ensures
        decrypt_stream_from(
            key,
            sealed_prefix(key, plaintext, k, base) + seal_chunk(
                key,
                base + 256 * k,
                true,
                plaintext.skip(CHUNK_SIZE * k),
            ),
            base,
        ) == Some(plaintext),
        (sealed_prefix(key, plaintext, k, base) + seal_chunk(
            key,
            base + 256 * k,
            true,
            plaintext.skip(CHUNK_SIZE * k),
        )).len() == ENCRYPTED_CHUNK_SIZE * k + (plaintext.len() - CHUNK_SIZE * k) + TAG_SIZE,
    decreases k,
{
    let c = CHUNK_SIZE as int;
    let e = ENCRYPTED_CHUNK_SIZE as int;
    let rem = plaintext.skip(c * k);
    let fc = seal_chunk(key, base + 256 * k, true, rem);
    let ct = sealed_prefix(key, plaintext, k, base) + fc;
    if k == 0 {
        assert(rem =~= plaintext);
        assert(sealed_prefix(key, plaintext, 0, base) =~= Seq::<u8>::empty());
        assert(ct =~= fc);
        assert(fc.len() == rem.len() + TAG_SIZE);
        if ct.len() == e {
            assert(open_chunk(key, base, false, ct) is None);
            assert(open_chunk(key, base, true, ct) == Some(plaintext));
        } else {
            assert(ct.len() < e);
            assert(open_chunk(key, base, true, ct) == Some(plaintext));
        }
    } else {
        lemma_prefix_cons(key, plaintext, k, base);
        let tail = plaintext.skip(c);
        let piece = plaintext.subrange(0, c);
        assert(chunk_ok(key, plaintext, base, 0));
        assert(piece =~= plaintext.take(c));
        let c0 = seal_chunk(key, base, false, plaintext.take(c));
        assert(c0.len() == e);
        assert forall|i: int| 0 <= i < k - 1 implies #[trigger] chunk_ok(
            key,
            tail,
            base + 256,
            i,
        ) by {
            assert(chunk_ok(key, plaintext, base, i + 1));
            assert(tail.subrange(c * i, c * (i + 1)) =~= plaintext.subrange(
                c * (i + 1),
                c * (i + 2),
            ));
            assert(base + 256 + 256 * i == base + 256 * (i + 1));
        }
        assert(tail.skip(c * (k - 1)) =~= plaintext.skip(c * k));
        assert(base + 256 + 256 * (k - 1) == base + 256 * k);
        lemma_decrypt_of_parts(key, tail, k - 1, base + 256);
        let rest = sealed_prefix(key, tail, k - 1, base + 256) + seal_chunk(
            key,
            base + 256 * k,
            true,
            plaintext.skip(c * k),
        );
        assert(ct =~= c0 + rest);
        assert(ct.len() > e);
        assert(ct.take(e) =~= c0);
        assert(ct.skip(e) =~= rest);
        assert(open_chunk(key, base, false, ct.take(e)) == Some(piece));
        assert(decrypt_stream_from(key, ct.skip(e), base + 256) == Some(tail));
        assert(piece + tail =~= plaintext);
    }
}

/// One wire chunk of a sealed prefix, extracted: the `i`-th full-size slice
/// of the prefix is exactly the seal of the `i`-th plaintext slice.
pub proof fn lemma_prefix_chunk_at(key: Seq<u8>, plaintext: Seq<u8>, k: int, base: int, i: int)
    requires
        0 <= i < k,
        CHUNK_SIZE * k <= plaintext.len(),
        chunks_ok(key, plaintext, k, base),
    ensures
        sealed_prefix(key, plaintext, k, base).len() == ENCRYPTED_CHUNK_SIZE * k,
        sealed_prefix(key, plaintext, k, base).subrange(
            ENCRYPTED_CHUNK_SIZE * i,
            ENCRYPTED_CHUNK_SIZE * (i + 1),
        ) == seal_chunk(
            key,
            base + 256 * i,
            false,
            plaintext.subrange(CHUNK_SIZE * i, CHUNK_SIZE * (i + 1)),
        ),
    decreases k,
{
    let c = CHUNK_SIZE as int;
    let e = ENCRYPTED_CHUNK_SIZE as int;
    lemma_prefix_len(key, plaintext, k, base);
    assert(chunk_ok(key, plaintext, base, k - 1));
    let last = seal_chunk(
        key,
        base + 256 * (k - 1),
        false,
        plaintext.subrange(c * (k - 1), c * k),
    );
    if i == k - 1 {
        lemma_prefix_len(key, plaintext, k - 1, base);
        assert((sealed_prefix(key, plaintext, k - 1, base) + last).subrange(e * i, e * (i + 1))
            =~= last);
    } else {
        lemma_prefix_chunk_at(key, plaintext, k - 1, base, i);
        lemma_prefix_len(key, plaintext, k - 1, base);
        assert((sealed_prefix(key, plaintext, k - 1, base) + last).subrange(e * i, e * (i + 1))
            =~= sealed_prefix(key, plaintext, k - 1, base).subrange(e * i, e * (i + 1)));
    }
}

/// A container that consists only of full non-final chunks never decrypts:
/// the stream ends without its final chunk.
pub proof fn lemma_prefix_truncated(key: Seq<u8>, plaintext: Seq<u8>, k: int, base: int)
    requires
        0 <= k,
        CHUNK_SIZE * k <= plaintext.len(),
        chunks_ok(key, plaintext, k, base),
    ensures
        decrypt_stream_from(key, sealed_prefix(key, plaintext, k, base), base) is None,
    decreases k,
{
    let c = CHUNK_SIZE as int;
    let e = ENCRYPTED_CHUNK_SIZE as int;
    let ct = sealed_prefix(key, plaintext, k, base);
    lemma_prefix_len(key, plaintext, k, base);
    if k == 0 {
    } else if k == 1 {
        assert(chunk_ok(key, plaintext, base, 0));
        assert(sealed_prefix(key, plaintext, 0, base) =~= Seq::<u8>::empty());
        assert(Seq::<u8>::empty() + seal_chunk(key, base, false, plaintext.subrange(0, c)) =~=
            seal_chunk(key, base, false, plaintext.subrange(0, c)));
        assert(ct == seal_chunk(key, base, false, plaintext.subrange(0, c)));
        assert(ct.len() == e);
        assert(open_chunk(key, base, false, ct) is Some);
    } else {
        lemma_prefix_cons(key, plaintext, k, base);
        let tail = plaintext.skip(c);
        let piece = plaintext.subrange(0, c);
        assert(chunk_ok(key, plaintext, base, 0));
        assert(piece =~= plaintext.take(c));
        let c0 = seal_chunk(key, base, false, plaintext.take(c));
        assert(c0.len() == e);
        let rest = sealed_prefix(key, tail, k - 1, base + 256);
        assert(ct == c0 + rest);
        assert forall|i: int| 0 <= i < k - 1 implies #[trigger] chunk_ok(
            key,
            tail,
            base + 256,
            i,
        ) by {
            assert(chunk_ok(key, plaintext, base, i + 1));
            assert(tail.subrange(c * i, c * (i + 1)) =~= plaintext.subrange(
                c * (i + 1),
                c * (i + 2),
            ));
            assert(base + 256 + 256 * i == base + 256 * (i + 1));
        }
        lemma_prefix_len(key, tail, k - 1, base + 256);
        lemma_prefix_truncated(key, tail, k - 1, base + 256);
        assert(ct.len() == e * k);
        assert(ct.len() > e);
        assert(ct.take(e) =~= c0);
        assert(ct.skip(e) =~= rest);
        assert(open_chunk(key, base, false, ct.take(e)) == Some(piece));
    }
}

/// Shape of a well-formed container: its chunk count, the exact relation of
/// plaintext length to ciphertext length, and the bounds of its final chunk.
pub proof fn lemma_stream_len(key: Seq<u8>, ciphertext: Seq<u8>, plaintext: Seq<u8>, pos: int)
    requires
        decrypt_stream_from(key, ciphertext, pos) == Some(plaintext),
    ensures
        ENCRYPTED_CHUNK_SIZE * (num_chunks(ciphertext.len() as int) - 1) + TAG_SIZE
            <= ciphertext.len(),
        ciphertext.len() <= ENCRYPTED_CHUNK_SIZE * num_chunks(ciphertext.len() as int),
        plaintext.len() == ciphertext.len() - TAG_SIZE * num_chunks(ciphertext.len() as int),
        plaintext.len() == CHUNK_SIZE * (num_chunks(ciphertext.len() as int) - 1) + (
        ciphertext.len() - ENCRYPTED_CHUNK_SIZE * (num_chunks(ciphertext.len() as int) - 1)
            - TAG_SIZE),
    decreases ciphertext.len(),
{
    let c = CHUNK_SIZE as int;
    let e = ENCRYPTED_CHUNK_SIZE as int;
    let n = num_chunks(ciphertext.len() as int);
    if ciphertext.len() > e {
        let p = open_chunk(key, pos, false, ciphertext.take(e)).unwrap();
        let rest = decrypt_stream_from(key, ciphertext.skip(e), pos + 256).unwrap();
        lemma_stream_len(key, ciphertext.skip(e), rest, pos + 256);
        assert(plaintext == p + rest);
        assert(num_chunks(ciphertext.len() as int) == 1 + num_chunks(ciphertext.len() - e));
    } else if ciphertext.len() == e {
        assert(n == 1);
        assert(plaintext.len() == c);
    } else {
        assert(n == 1);
        assert(plaintext.len() + TAG_SIZE == ciphertext.len());
    }
}

/// Per-chunk facts of a well-formed container: every non-final chunk opens
/// (flag clear) to its 64 KiB plaintext slice, and the final chunk opens
/// (flag set) to the remaining plaintext; a full-size final chunk moreover
/// fails to open as a non-final one, which is what resolves the ambiguity.
pub proof fn lemma_stream_chunk(
    key: Seq<u8>,
    ciphertext: Seq<u8>,
    plaintext: Seq<u8>,
    pos: int,
    i: int,
)
    requires
        decrypt_stream_from(key, ciphertext, pos) == Some(plaintext),
        0 <= i < num_chunks(ciphertext.len() as int),
    ensures
        i < num_chunks(ciphertext.len() as int) - 1 ==> open_chunk(
            key,
            pos + 256 * i,
            false,
            ciphertext.subrange(ENCRYPTED_CHUNK_SIZE * i, ENCRYPTED_CHUNK_SIZE * (i + 1)),
        ) == Some(plaintext.subrange(CHUNK_SIZE * i, CHUNK_SIZE * (i + 1))),
        i == num_chunks(ciphertext.len() as int) - 1 ==> open_chunk(
            key,
            pos + 256 * i,
            true,
            ciphertext.subrange(ENCRYPTED_CHUNK_SIZE * i, ciphertext.len() as int),
        ) == Some(plaintext.subrange(CHUNK_SIZE * i, plaintext.len() as int)),
        i == num_chunks(ciphertext.len() as int) - 1 && ciphertext.len() - ENCRYPTED_CHUNK_SIZE * i
            == ENCRYPTED_CHUNK_SIZE ==> open_chunk(
            key,
            pos + 256 * i,
            false,
            ciphertext.subrange(ENCRYPTED_CHUNK_SIZE * i, ciphertext.len() as int),
        ) is None,
    decreases i,
{
    let c = CHUNK_SIZE as int;
    let e = ENCRYPTED_CHUNK_SIZE as int;
    let n = num_chunks(ciphertext.len() as int);
    lemma_stream_len(key, ciphertext, plaintext, pos);
    if n == 1 {
        assert(i == 0);
        assert(ciphertext.subrange(0, ciphertext.len() as int) =~= ciphertext);
        assert(plaintext.subrange(0, plaintext.len() as int) =~= plaintext);
        if ciphertext.len() == e {
            assert(open_chunk(key, pos, false, ciphertext) is None);
        }
    } else {
        assert(ciphertext.len() > e);
        let p = open_chunk(key, pos, false, ciphertext.take(e)).unwrap();
        let rest = decrypt_stream_from(key, ciphertext.skip(e), pos + 256).unwrap();
        assert(plaintext == p + rest);
        assert(p.len() == c);
        if i == 0 {
            assert(ciphertext.subrange(0, e) =~= ciphertext.take(e));
            assert(plaintext.subrange(0, c) =~= p);
        } else {
            lemma_stream_chunk(key, ciphertext.skip(e), rest, pos + 256, i - 1);
            assert(num_chunks(ciphertext.len() - e) == n - 1);
            lemma_stream_len(key, ciphertext.skip(e), rest, pos + 256);
            assert(rest =~= plaintext.skip(c));
            assert(pos + 256 + 256 * (i - 1) == pos + 256 * i);
            if i < n - 1 {
                assert(ciphertext.skip(e).subrange(e * (i - 1), e * i) =~= ciphertext.subrange(
                    e * i,
                    e * (i + 1),
                ));
                assert(rest.subrange(c * (i - 1), c * i) =~= plaintext.subrange(
                    c * i,
                    c * (i + 1),
                ));
            } else {
                assert(ciphertext.skip(e).subrange(e * (i - 1), ciphertext.len() - e) =~=
                    ciphertext.subrange(e * i, ciphertext.len() as int));
                assert(rest.subrange(c * (i - 1), rest.len() as int) =~= plaintext.subrange(
                    c * i,
                    plaintext.len() as int,
                ));
            }
        }
    }
}

/// `num_chunks` in closed form, for the seek path that computes it from a
/// container length.
pub proof fn lemma_num_chunks_closed(len: int)
    requires
        0 <= len,
    ensures
        len == 0 ==> num_chunks(len) == 1,
        len > 0 && len % (ENCRYPTED_CHUNK_SIZE as int) == 0 ==> num_chunks(len) == len / (
        ENCRYPTED_CHUNK_SIZE as int),
        len % (ENCRYPTED_CHUNK_SIZE as int) != 0 ==> num_chunks(len) == len / (
        ENCRYPTED_CHUNK_SIZE as int) + 1,
    decreases len,
{
    let e = ENCRYPTED_CHUNK_SIZE as int;
    if len > e {
        lemma_num_chunks_closed(len - e);
        vstd::arithmetic::div_mod::lemma_hoist_over_denominator(len - e, 1, e as nat);
        assert((len - e) + 1 * e == len);
        vstd::arithmetic::div_mod::lemma_mod_sub_multiples_vanish(len, e);
    } else if len == e {
        assert(num_chunks(len) == 1);
        assert(len % e == 0);
        assert(len / e == 1);
    } else {
        assert(num_chunks(len) == 1);
        assert(len / e == 0) by {
            vstd::arithmetic::div_mod::lemma_basic_div(len, e);
        }
    }
}

} // verus!
