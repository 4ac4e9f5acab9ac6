//! Proof of work, chain validity and fork truncation.
use crate::codec::{block_hash, Block};
use vstd::prelude::*;
use vstd::string::*;

verus! {

/// A hash meets a difficulty when it starts with that many `0` characters.
pub open spec fn meets_difficulty(h: Seq<char>, proof: nat) -> bool {
    proof <= h.len() && forall|i: int| 0 <= i < proof ==> h[i] == '0'
}

/// A block that can be hashed and whose hash meets the difficulty. A block
/// whose timestamp lies outside 1970..9999 cannot be hashed and so counts as
/// broken.
pub open spec fn block_ok(b: Block, proof: nat) -> bool {
    b.wf() && meets_difficulty(block_hash(b), proof)
}

/// `next` carries the hash of `prev` as its link.
pub open spec fn linked(prev: Block, next: Block) -> bool {
    next.prev_hash@ == block_hash(prev)
}

/// The block at position `i` breaks the chain: its hash misses the
/// difficulty, or it does not link to the block before it.
pub open spec fn bad_at(s: Seq<Block>, i: int, proof: nat) -> bool {
    ||| !block_ok(s[i], proof)
    ||| (i > 0 && !linked(s[i - 1], s[i]))
}

/// Every block meets the difficulty and links to the hash of the block
/// before it: what the validator checks.
pub open spec fn valid_chain(s: Seq<Block>, proof: nat) -> bool {
    forall|i: int| 0 <= i < s.len() ==> !bad_at(s, i, proof)
}

/// Indices run 1, 2, 3, ... without gaps.
pub open spec fn indexed(s: Seq<Block>) -> bool {
    forall|i: int| 0 <= i < s.len() ==> (#[trigger] s[i]).index == i + 1
}

/// A valid chain whose indices run from 1 without gaps: what a ledger holds.
pub open spec fn sound_chain(s: Seq<Block>, proof: nat) -> bool {
    valid_chain(s, proof) && indexed(s)
}

pub open spec fn sorted_by_index(s: Seq<Block>) -> bool {
    forall|i: int, j: int| 0 <= i < j < s.len() ==> s[i].index <= s[j].index
}

/// The first position at or after `from` that breaks the chain, or the length.
pub open spec fn bad_pos(s: Seq<Block>, proof: nat, from: int) -> int
    decreases s.len() - from,
{
    if from < 0 || from >= s.len() {
        s.len() as int
    } else if bad_at(s, from, proof) {
        from
    } else {
        bad_pos(s, proof, from + 1)
    }
}

/// Removes blocks from the end while their index is at least `k`.
pub open spec fn drop_from(s: Seq<Block>, k: int) -> Seq<Block>
    decreases s.len(),
{
    if s.len() > 0 && s.last().index >= k {
        drop_from(s.drop_last(), k)
    } else {
        s
    }
}

/// What validation leaves of a sequence of blocks: all of it when it is a
/// valid chain, else what remains once every block whose index is at least
/// that of the first broken block is dropped from the end.
pub open spec fn truncated(s: Seq<Block>, proof: nat) -> Seq<Block> {
    let p = bad_pos(s, proof, 0);
    if p == s.len() {
        s
    } else {
        drop_from(s, s[p].index as int)
    }
}

proof fn lemma_bad_pos_found(s: Seq<Block>, proof: nat, from: int, p: int)
    requires
        0 <= from <= p <= s.len(),
        forall|j: int| from <= j < p ==> !bad_at(s, j, proof),
        p < s.len() ==> bad_at(s, p, proof),
    ensures
        bad_pos(s, proof, from) == p,
    decreases p - from,
{
    if from < p {
        lemma_bad_pos_found(s, proof, from + 1, p);
    }
}

pub(crate) proof fn lemma_valid_iff_no_bad(s: Seq<Block>, proof: nat)
    ensures
        valid_chain(s, proof) <==> bad_pos(s, proof, 0) == s.len(),
{
    if valid_chain(s, proof) {
        lemma_bad_pos_found(s, proof, 0, s.len() as int);
    } else {
        let i = choose|i: int| 0 <= i < s.len() && bad_at(s, i, proof);
        lemma_bad_pos_bound(s, proof, 0, i);
    }
}

proof fn lemma_bad_pos_bound(s: Seq<Block>, proof: nat, from: int, i: int)
    requires
        0 <= from <= i < s.len(),
        bad_at(s, i, proof),
    ensures
        bad_pos(s, proof, from) <= i,
    decreases i - from,
{
    if from < i && !bad_at(s, from, proof) {
        lemma_bad_pos_bound(s, proof, from + 1, i);
    }
}

/// `drop_from` leaves a prefix, and every block it removed has index >= k.
proof fn lemma_drop_from_prefix(s: Seq<Block>, k: int)
    ensures
        drop_from(s, k).len() <= s.len(),
        drop_from(s, k) == s.take(drop_from(s, k).len() as int),
        forall|j: int| drop_from(s, k).len() <= j < s.len() ==> s[j].index >= k,
        drop_from(s, k).len() > 0 ==> s[drop_from(s, k).len() - 1].index < k,
    decreases s.len(),
{
    if s.len() > 0 && s.last().index >= k {
        lemma_drop_from_prefix(s.drop_last(), k);
        let m = drop_from(s, k).len() as int;
        assert(s.drop_last().take(m) =~= s.take(m));
        assert forall|j: int| m <= j < s.len() implies s[j].index >= k by {
            if j < s.len() - 1 {
                assert(s.drop_last()[j] == s[j]);
            }
        }
        if m > 0 {
            assert(s.drop_last()[m - 1] == s[m - 1]);
        }
    } else {
        assert(s.take(s.len() as int) =~= s);
    }
}

/// A prefix of the blocks before the first broken one is a valid chain.
pub(crate) proof fn lemma_prefix_valid(s: Seq<Block>, proof: nat, m: int)
    requires
        0 <= m <= s.len(),
        forall|j: int| 0 <= j < m ==> !bad_at(s, j, proof),
    ensures
        valid_chain(s.take(m), proof),
{
    let t = s.take(m);
    assert forall|j: int| 0 <= j < t.len() implies !bad_at(t, j, proof) by {
        assert(!bad_at(s, j, proof));
        if j > 0 {
            assert(t[j - 1] == s[j - 1]);
        }
    }
}

/// Validation of a sequence sorted by index leaves a valid chain.
pub(crate) proof fn lemma_truncated_valid(s: Seq<Block>, proof: nat)
    requires
        sorted_by_index(s),
    ensures
        valid_chain(truncated(s, proof), proof),
        truncated(s, proof) == s.take(truncated(s, proof).len() as int),
{
    let p = bad_pos(s, proof, 0);
    lemma_bad_pos_range(s, proof, 0);
    if p == s.len() {
        lemma_valid_iff_no_bad(s, proof);
        assert(s.take(s.len() as int) =~= s);
    } else {
        let k = s[p].index as int;
        lemma_drop_from_prefix(s, k);
        let m = drop_from(s, k).len() as int;
        if m > p {
            assert(s[p].index <= s[m - 1].index);
        }
        lemma_prefix_valid(s, proof, m);
    }
}

proof fn lemma_bad_pos_range(s: Seq<Block>, proof: nat, from: int)
    requires
        0 <= from <= s.len(),
    ensures
        from <= bad_pos(s, proof, from) <= s.len(),
        forall|j: int| from <= j < bad_pos(s, proof, from) ==> !bad_at(s, j, proof),
        bad_pos(s, proof, from) < s.len() ==> bad_at(s, bad_pos(s, proof, from), proof),
    decreases s.len() - from,
{
    if from < s.len() && !bad_at(s, from, proof) {
        lemma_bad_pos_range(s, proof, from + 1);
    }
}

/// In a ledger's chain each block's index is one more than that of the
/// block before it.
pub proof fn lemma_indices_consecutive(s: Seq<Block>, proof: nat)
    requires
        sound_chain(s, proof),
    ensures
        forall|i: int| 0 <= i < s.len() - 1 ==> #[trigger] s[i + 1].index == s[i].index + 1,
{
    assert forall|i: int| 0 <= i < s.len() - 1 implies #[trigger] s[i + 1].index == s[i].index
        + 1 by {
        assert(s[i].index == i + 1);
        assert(s[i + 1].index == i + 2);
    }
}

/// In a valid chain each block's link is the hash of the block before it.
pub proof fn lemma_hash_linkage(s: Seq<Block>, proof: nat)
    requires
        valid_chain(s, proof),
    ensures
        forall|i: int| 0 <= i < s.len() - 1 ==> #[trigger] s[i + 1].prev_hash@ == block_hash(s[i]),
{
    assert forall|i: int| 0 <= i < s.len() - 1 implies #[trigger] s[i + 1].prev_hash@
        == block_hash(s[i]) by {
        assert(!bad_at(s, i + 1, proof));
    }
}

/// In a valid chain every block's hash meets the difficulty.
pub proof fn lemma_difficulty_met(s: Seq<Block>, proof: nat)
    requires
        valid_chain(s, proof),
    ensures
        forall|i: int| 0 <= i < s.len() ==> meets_difficulty(block_hash(#[trigger] s[i]), proof),
{
    assert forall|i: int| 0 <= i < s.len() implies meets_difficulty(
        block_hash(#[trigger] s[i]),
        proof,
    ) by {
        assert(!bad_at(s, i, proof));
    }
}

/// Replacing the data of block `k` (counted from 1) of a ledger's chain so that
/// its hash no longer meets the difficulty makes the chain invalid, and
/// validation then keeps exactly the blocks before it.
pub proof fn lemma_truncation_on_corruption(s: Seq<Block>, proof: nat, k: int, data: String)
    requires
        sound_chain(s, proof),
        1 <= k <= s.len(),
        !meets_difficulty(block_hash(Block { data: data, ..s[k - 1] }), proof),
    ensures
        !valid_chain(s.update(k - 1, Block { data: data, ..s[k - 1] }), proof),
        truncated(s.update(k - 1, Block { data: data, ..s[k - 1] }), proof) == s.take(k - 1),
{
    let c = s.update(k - 1, Block { data: data, ..s[k - 1] });
    assert forall|j: int| 0 <= j < k - 1 implies !bad_at(c, j, proof) by {
        assert(!bad_at(s, j, proof));
        assert(c[j] == s[j]);
        if j > 0 {
            assert(c[j - 1] == s[j - 1]);
        }
    }
    assert(bad_at(c, k - 1, proof));
    lemma_bad_pos_found(c, proof, 0, k - 1);
    assert forall|j: int| 0 <= j < c.len() implies (#[trigger] c[j]).index == j + 1 by {
        assert(s[j].index == j + 1);
    }
    lemma_drop_from_prefix(c, k);
    let m = drop_from(c, k).len() as int;
    if m > k - 1 {
        assert(c[m - 1].index == m);
    }
    if m < k - 1 {
        assert(c[m].index == m + 1);
    }
    assert(c.take(k - 1) =~= s.take(k - 1));
}

/// Whether `hash` starts with `proof` zeros.
pub fn proof_of_work(hash: &str, proof: u8) -> (r: bool)
    ensures
        r == meets_difficulty(hash@, proof as nat),
{
    let n = hash.unicode_len();
    if proof as usize > n {
        return false;
    }
    let mut i: usize = 0;
    while i < proof as usize
        invariant
            i <= proof,
            proof <= hash@.len(),
            forall|j: int| 0 <= j < i ==> hash@[j] == '0',
        decreases proof - i,
    {
        if hash.get_char(i) != '0' {
            return false;
        }
        i += 1;
    }
    true
}

/// Whether the block at position `i` breaks the chain.
fn block_bad(blocks: &Vec<Block>, i: usize, proof: u8) -> (r: bool)
    requires
        i < blocks@.len(),
        i > 0 ==> blocks@[i - 1].wf(),
    ensures
        r == bad_at(blocks@, i as int, proof as nat),
{
    let b = &blocks[i];
    if !b.timestamp.is_valid() {
        return true;
    }
    let h = b.hash();
    if !proof_of_work(h.as_str(), proof) {
        return true;
    }
    if i == 0 {
        return false;
    }
    let prev = &blocks[i - 1];
    let link = prev.hash();
    !(b.prev_hash == link)
}

/// The first position at or after `start` that breaks the chain, or the
/// length, given that the block before `start` is fine.
pub(crate) fn find_bad(blocks: &Vec<Block>, start: usize, proof: u8) -> (r: usize)
    requires
        start <= blocks@.len(),
        start > 0 ==> blocks@[start - 1].wf(),
    ensures
        start <= r <= blocks@.len(),
        forall|j: int| start <= j < r ==> !bad_at(blocks@, j, proof as nat),
        r < blocks@.len() ==> bad_at(blocks@, r as int, proof as nat),
{
    let mut i = start;
    while i < blocks.len()
        invariant
            start <= i <= blocks@.len(),
            i > 0 ==> blocks@[i - 1].wf(),
            forall|j: int| start <= j < i ==> !bad_at(blocks@, j, proof as nat),
        decreases blocks@.len() - i,
    {
        if block_bad(blocks, i, proof) {
            return i;
        }
        i += 1;
    }
    i
}

/// Drops blocks from the end while their index is at least `index`.
fn drop_dead_blocks(blocks: &mut Vec<Block>, index: u64)
    ensures
        final(blocks)@ == drop_from(old(blocks)@, index as int),
{
    while blocks.len() > 0 && blocks[blocks.len() - 1].index >= index
        invariant
            drop_from(blocks@, index as int) == drop_from(old(blocks)@, index as int),
        decreases blocks@.len(),
    {
        blocks.pop();
    }
}

/// Validates `blocks` from the oldest to the newest. On the first block whose
/// hash misses the difficulty (or that cannot be hashed) or that does not
/// link to the hash of the block before it, drops from the end every block
/// whose index is at least that block's, and returns false.
pub fn verify_chain(blocks: &mut Vec<Block>, proof: u8) -> (r: bool)
    ensures
        r == valid_chain(old(blocks)@, proof as nat),
        final(blocks)@ == truncated(old(blocks)@, proof as nat),
        r ==> final(blocks)@ == old(blocks)@,
        final(blocks)@ == old(blocks)@.take(final(blocks)@.len() as int),
        sorted_by_index(old(blocks)@) ==> valid_chain(final(blocks)@, proof as nat),
{
    let p = find_bad(blocks, 0, proof);
    proof {
        lemma_bad_pos_found(blocks@, proof as nat, 0, p as int);
        lemma_valid_iff_no_bad(blocks@, proof as nat);
        if p < blocks@.len() {
            lemma_drop_from_prefix(blocks@, blocks@[p as int].index as int);
        } else {
            assert(blocks@.take(blocks@.len() as int) =~= blocks@);
        }
        if sorted_by_index(blocks@) {
            lemma_truncated_valid(blocks@, proof as nat);
        }
    }
    if p == blocks.len() {
        return true;
    }
    let k = blocks[p].index;
    drop_dead_blocks(blocks, k);
    false
}

} // verus!
