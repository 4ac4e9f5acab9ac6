//! The proof-of-work search.
use crate::chain::{block_ok, proof_of_work};
use crate::codec::{block_hash, clock_now, Block, Timestamp, MAX_SECS};
use vstd::prelude::*;

verus! {

/// `b` with the timestamp `t` and the nonce `n`.
pub open spec fn resealed(b: Block, t: Timestamp, n: u32) -> Block {
    Block { timestamp: t, nonce: Some(n), ..b }
}

/// `b` with the timestamp `t`.
pub open spec fn at_time(b: Block, t: Timestamp) -> Block {
    Block { timestamp: t, ..b }
}

/// No nonce from 1 to `u32::MAX` makes `b`, under its own timestamp, meet
/// the difficulty.
pub open spec fn exhausted(b: Block, proof: nat) -> bool {
    b.timestamp.wf() && forall|n: u32|
        1 <= n ==> !block_ok(#[trigger] resealed(b, b.timestamp, n), proof)
}

/// `t` is the timestamp `from` or a later second.
pub open spec fn not_earlier(t: Timestamp, from: Timestamp) -> bool {
    t == from || t.secs > from.secs
}

/// Searches for a nonce, from 1 upwards, under which the block's hash meets
/// the difficulty. Whenever the clock has moved past the block's second, the
/// block takes the clock's time and the search starts again from 1.
///
/// The sealed block carries the least nonce that works for its timestamp.
/// Returns `None` only when no nonce from 1 to `u32::MAX` works for the
/// timestamp the block then carries.
pub fn mine(candidate: Block, proof: u8) -> (r: Option<Block>)
    requires
        candidate.wf(),
    ensures
        match r {
            Some(b) => {
                &&& b.index == candidate.index
                &&& b.data == candidate.data
                &&& b.prev_hash == candidate.prev_hash
                &&& b.nonce is Some
                &&& not_earlier(b.timestamp, candidate.timestamp)
                &&& block_ok(b, proof as nat)
                &&& block_hash(b).len() == 64
                &&& forall|n: u32|
                    1 <= n < b.nonce->0 ==> !block_ok(
                        #[trigger] resealed(b, b.timestamp, n),
                        proof as nat,
                    )
            },
            None => exists|t: Timestamp|
                not_earlier(t, candidate.timestamp) && exhausted(
                    #[trigger] at_time(candidate, t),
                    proof as nat,
                ),
        },
{
    let mut block = candidate;
    let mut nonce: u32 = 1;
    loop
        invariant
            block.wf(),
            block.index == candidate.index,
            block.data == candidate.data,
            block.prev_hash == candidate.prev_hash,
            not_earlier(block.timestamp, candidate.timestamp),
            1 <= nonce,
            forall|n: u32|
                1 <= n < nonce ==> !block_ok(
                    #[trigger] resealed(candidate, block.timestamp, n),
                    proof as nat,
                ),
        decreases MAX_SECS - block.timestamp.secs, u32::MAX - nonce,
    {
        block.nonce = Some(nonce);
        let h = block.hash();
        if proof_of_work(h.as_str(), proof) {
            assert forall|n: u32| 1 <= n < nonce implies !block_ok(
                #[trigger] resealed(block, block.timestamp, n),
                proof as nat,
            ) by {
                assert(resealed(block, block.timestamp, n) == resealed(
                    candidate,
                    block.timestamp,
                    n,
                ));
            }
            return Some(block);
        }
        assert(block == resealed(candidate, block.timestamp, nonce));
        let now = clock_now();
        if now.secs > block.timestamp.secs && now.is_valid() {
            block.timestamp = now;
            nonce = 1;
        } else if nonce == u32::MAX {
            assert forall|n: u32| 1 <= n implies !block_ok(
                #[trigger] resealed(candidate, block.timestamp, n),
                proof as nat,
            ) by {
                if n < nonce {
                } else {
                    assert(n == nonce);
                }
            }
            let ghost w = at_time(candidate, block.timestamp);
            assert forall|n: u32| 1 <= n implies !block_ok(
                #[trigger] resealed(w, w.timestamp, n),
                proof as nat,
            ) by {
                assert(resealed(w, w.timestamp, n) == resealed(candidate, block.timestamp, n));
            }
            assert(exhausted(w, proof as nat));
            return None;
        } else {
            nonce = nonce + 1;
        }
    }
}

} // verus!
