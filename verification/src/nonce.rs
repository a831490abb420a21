//! Per-chunk nonce derivation.
//!
//! A nonce is 12 bytes: an 11-byte big-endian chunk counter followed by one
//! flag byte that is `0x01` for the final chunk and `0x00` otherwise. The
//! counter and the flag are packed into a single 96-bit position value whose
//! low-order byte is reserved for the flag, so consecutive chunk positions
//! are 256 apart. Uniqueness of the nonces is what makes reusing the payload
//! key across chunks safe, and is proved below.

use vstd::prelude::*;

use crate::errors::StreamError;
use crate::{COUNTER_INCR, COUNTER_MAX};

verus! {

/// The nonce bytes derived from a chunk position and the last-block flag:
/// the low 12 bytes, big-endian, of `position | flag`.
pub open spec fn nonce_spec(position: u128, last_block: bool) -> Seq<u8> {
    let pf = position | (if last_block { 1u128 } else { 0u128 });
    seq![
        ((pf >> 88) & 0xff) as u8,
        ((pf >> 80) & 0xff) as u8,
        ((pf >> 72) & 0xff) as u8,
        ((pf >> 64) & 0xff) as u8,
        ((pf >> 56) & 0xff) as u8,
        ((pf >> 48) & 0xff) as u8,
        ((pf >> 40) & 0xff) as u8,
        ((pf >> 32) & 0xff) as u8,
        ((pf >> 24) & 0xff) as u8,
        ((pf >> 16) & 0xff) as u8,
        ((pf >> 8) & 0xff) as u8,
        (pf & 0xff) as u8,
    ]
}

/// The counter component of a nonce: the integer encoded big-endian by its
/// first 11 bytes.
pub open spec fn nonce_counter(nonce: Seq<u8>) -> int {
    (nonce[0] as int) * 0x100000000000000000000
        + (nonce[1] as int) * 0x1000000000000000000
        + (nonce[2] as int) * 0x10000000000000000
        + (nonce[3] as int) * 0x100000000000000
        + (nonce[4] as int) * 0x1000000000000
        + (nonce[5] as int) * 0x10000000000
        + (nonce[6] as int) * 0x100000000
        + (nonce[7] as int) * 0x1000000
        + (nonce[8] as int) * 0x10000
        + (nonce[9] as int) * 0x100
        + (nonce[10] as int)
}

/// Computes the nonce for the chunk at `position`.
///
/// Fails exactly when `position` exceeds the maximum representable counter;
/// proceeding past it would wrap the counter and reuse a nonce.
pub fn aead_nonce(position: u128, last_block: bool) -> (r: Result<Vec<u8>, StreamError>)
    ensures
        position > COUNTER_MAX ==> r == Err::<Vec<u8>, StreamError>(StreamError::CounterOverflow),
        position <= COUNTER_MAX ==> (r matches Ok(n) && n@ == nonce_spec(position, last_block)
            && n@.len() == 12),
{
    if position > COUNTER_MAX {
        return Err(StreamError::CounterOverflow);
    }
    let pf: u128 = position | (if last_block { 1u128 } else { 0u128 });
    let mut n: Vec<u8> = Vec::new();
    n.push(((pf >> 88) & 0xff) as u8);
    n.push(((pf >> 80) & 0xff) as u8);
    n.push(((pf >> 72) & 0xff) as u8);
    n.push(((pf >> 64) & 0xff) as u8);
    n.push(((pf >> 56) & 0xff) as u8);
    n.push(((pf >> 48) & 0xff) as u8);
    n.push(((pf >> 40) & 0xff) as u8);
    n.push(((pf >> 32) & 0xff) as u8);
    n.push(((pf >> 24) & 0xff) as u8);
    n.push(((pf >> 16) & 0xff) as u8);
    n.push(((pf >> 8) & 0xff) as u8);
    n.push((pf & 0xff) as u8);
    proof {
        assert(n@ =~= nonce_spec(position, last_block));
    }
    Ok(n)
}

/// Distinct chunks get distinct nonces: two valid positions that differ in
/// their counter or in their last-block flag never derive the same nonce.
pub proof fn lemma_nonce_unique(p1: u128, l1: bool, p2: u128, l2: bool)
    requires
        p1 % 256 == 0,
        p2 % 256 == 0,
        p1 <= COUNTER_MAX,
        p2 <= COUNTER_MAX,
        p1 != p2 || l1 != l2,
    ensures
        nonce_spec(p1, l1) != nonce_spec(p2, l2),
{
    let f1: u128 = if l1 { 1u128 } else { 0u128 };
    let f2: u128 = if l2 { 1u128 } else { 0u128 };
    let a = p1 | f1;
    let b = p2 | f2;
    if nonce_spec(p1, l1) == nonce_spec(p2, l2) {
        assert(nonce_spec(p1, l1)[0] == nonce_spec(p2, l2)[0]);
        assert(nonce_spec(p1, l1)[1] == nonce_spec(p2, l2)[1]);
        assert(nonce_spec(p1, l1)[2] == nonce_spec(p2, l2)[2]);
        assert(nonce_spec(p1, l1)[3] == nonce_spec(p2, l2)[3]);
        assert(nonce_spec(p1, l1)[4] == nonce_spec(p2, l2)[4]);
        assert(nonce_spec(p1, l1)[5] == nonce_spec(p2, l2)[5]);
        assert(nonce_spec(p1, l1)[6] == nonce_spec(p2, l2)[6]);
        assert(nonce_spec(p1, l1)[7] == nonce_spec(p2, l2)[7]);
        assert(nonce_spec(p1, l1)[8] == nonce_spec(p2, l2)[8]);
        assert(nonce_spec(p1, l1)[9] == nonce_spec(p2, l2)[9]);
        assert(nonce_spec(p1, l1)[10] == nonce_spec(p2, l2)[10]);
        assert(nonce_spec(p1, l1)[11] == nonce_spec(p2, l2)[11]);
        assert(p1 == p2 && f1 == f2) by (bit_vector)
            requires
                p1 % 256 == 0,
                p2 % 256 == 0,
                p1 <= 0xffffffff_ffffffff_ffffff00u128,
                p2 <= 0xffffffff_ffffffff_ffffff00u128,
                (f1 == 0 || f1 == 1) && (f2 == 0 || f2 == 1),
                a == p1 | f1,
                b == p2 | f2,
                ((a >> 88) & 0xff) as u8 == ((b >> 88) & 0xff) as u8,
                ((a >> 80) & 0xff) as u8 == ((b >> 80) & 0xff) as u8,
                ((a >> 72) & 0xff) as u8 == ((b >> 72) & 0xff) as u8,
                ((a >> 64) & 0xff) as u8 == ((b >> 64) & 0xff) as u8,
                ((a >> 56) & 0xff) as u8 == ((b >> 56) & 0xff) as u8,
                ((a >> 48) & 0xff) as u8 == ((b >> 48) & 0xff) as u8,
                ((a >> 40) & 0xff) as u8 == ((b >> 40) & 0xff) as u8,
                ((a >> 32) & 0xff) as u8 == ((b >> 32) & 0xff) as u8,
                ((a >> 24) & 0xff) as u8 == ((b >> 24) & 0xff) as u8,
                ((a >> 16) & 0xff) as u8 == ((b >> 16) & 0xff) as u8,
                ((a >> 8) & 0xff) as u8 == ((b >> 8) & 0xff) as u8,
                (a & 0xff) as u8 == (b & 0xff) as u8,
        ;
        assert(l1 == l2);
        assert(false);
    }
}

/// The counter component of a chunk's nonce is exactly its chunk index
/// (`position / 256`), so across a stream the counter components are
/// strictly increasing with the chunk positions.
pub proof fn lemma_nonce_counter_recovers(position: u128, last_block: bool)
    requires
        position % 256 == 0,
        position <= COUNTER_MAX,
    ensures
        nonce_counter(nonce_spec(position, last_block)) == (position as int) / (COUNTER_INCR as int),
{
    let f: u128 = if last_block { 1u128 } else { 0u128 };
    let pf = position | f;
    let n = nonce_spec(position, last_block);
    assert(n[0] == ((pf >> 88) & 0xff) as u8);
    assert(n[1] == ((pf >> 80) & 0xff) as u8);
    assert(n[2] == ((pf >> 72) & 0xff) as u8);
    assert(n[3] == ((pf >> 64) & 0xff) as u8);
    assert(n[4] == ((pf >> 56) & 0xff) as u8);
    assert(n[5] == ((pf >> 48) & 0xff) as u8);
    assert(n[6] == ((pf >> 40) & 0xff) as u8);
    assert(n[7] == ((pf >> 32) & 0xff) as u8);
    assert(n[8] == ((pf >> 24) & 0xff) as u8);
    assert(n[9] == ((pf >> 16) & 0xff) as u8);
    assert(n[10] == ((pf >> 8) & 0xff) as u8);
    assert(((pf >> 88) & 0xff) < 256 && ((pf >> 80) & 0xff) < 256 && ((pf >> 72) & 0xff) < 256
        && ((pf >> 64) & 0xff) < 256 && ((pf >> 56) & 0xff) < 256 && ((pf >> 48) & 0xff) < 256
        && ((pf >> 40) & 0xff) < 256 && ((pf >> 32) & 0xff) < 256 && ((pf >> 24) & 0xff) < 256
        && ((pf >> 16) & 0xff) < 256 && ((pf >> 8) & 0xff) < 256
        && ((pf >> 88) & 0xff) * 0x100000000000000000000
            + ((pf >> 80) & 0xff) * 0x1000000000000000000
            + ((pf >> 72) & 0xff) * 0x10000000000000000
            + ((pf >> 64) & 0xff) * 0x100000000000000
            + ((pf >> 56) & 0xff) * 0x1000000000000
            + ((pf >> 48) & 0xff) * 0x10000000000
            + ((pf >> 40) & 0xff) * 0x100000000
            + ((pf >> 32) & 0xff) * 0x1000000
            + ((pf >> 24) & 0xff) * 0x10000
            + ((pf >> 16) & 0xff) * 0x100
            + ((pf >> 8) & 0xff) == position / 256) by (bit_vector)
        requires
            position % 256 == 0,
            position <= 0xffffffff_ffffffff_ffffff00u128,
            (f == 0 || f == 1),
            pf == position | f,
    ;
    assert(COUNTER_INCR as int == 256);
}

} // verus!
