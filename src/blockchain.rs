//! The chain store: a valid chain, extended by mining and by merging blocks
//! from peers.
use crate::chain::{
    bad_at, block_ok, find_bad, lemma_prefix_valid, lemma_valid_iff_no_bad, lemma_truncated_valid, sorted_by_index,
    sound_chain, truncated, verify_chain,
};
use crate::codec::{block_hash, clock_now, Block, Timestamp};
use crate::miner::{at_time, exhausted, mine, not_earlier};
use vstd::prelude::*;
use vstd::string::*;

verus! {

/// The payload of the first block.
pub const GENESIS_DATA: &'static str = "INIZIO BELLO!!!";

/// The link of the first block: the hex form of the bytes of "INIZIO BELLO".
pub const GENESIS_PREV_HASH: &'static str = "494e495a494f2042454c4c4f";

#[derive(Clone, Copy, Debug, PartialEq, Eq, Structural)]
pub enum ChainError {
    /// The chain holds no block to extend.
    EmptyChain,
    /// The last block already carries the largest index.
    IndexOverflow,
    /// The clock reads a time that a block cannot carry.
    ClockOutOfRange,
    /// No nonce meets the difficulty for the block's timestamp.
    Exhausted,
    /// Blocks from a peer do not extend the chain into a valid one.
    Conflict,
}

/// How many blocks of the sorted `s` come before the first with an index
/// above `k`.
pub open spec fn insert_pos(s: Seq<Block>, k: u64) -> nat
    decreases s.len(),
{
    if s.len() == 0 || s[0].index > k {
        0
    } else {
        1 + insert_pos(s.drop_first(), k)
    }
}

/// Stable insertion sort by index.
pub open spec fn sort_by_index(s: Seq<Block>) -> Seq<Block>
    decreases s.len(),
{
    if s.len() == 0 {
        s
    } else {
        let t = sort_by_index(s.drop_last());
        t.insert(insert_pos(t, s.last().index) as int, s.last())
    }
}

proof fn lemma_insert_pos(s: Seq<Block>, k: u64)
    ensures
        insert_pos(s, k) <= s.len(),
        forall|j: int| 0 <= j < insert_pos(s, k) ==> s[j].index <= k,
        insert_pos(s, k) < s.len() ==> s[insert_pos(s, k) as int].index > k,
    decreases s.len(),
{
    if s.len() > 0 && s[0].index <= k {
        lemma_insert_pos(s.drop_first(), k);
        assert forall|j: int| 0 <= j < insert_pos(s, k) implies s[j].index <= k by {
            if j > 0 {
                assert(s[j] == s.drop_first()[j - 1]);
            }
        }
    }
}

proof fn lemma_insert_pos_all(s: Seq<Block>, k: u64)
    requires
        forall|j: int| 0 <= j < s.len() ==> s[j].index <= k,
    ensures
        insert_pos(s, k) == s.len(),
    decreases s.len(),
{
    if s.len() > 0 {
        lemma_insert_pos_all(s.drop_first(), k);
    }
}

proof fn lemma_sort_sorted(s: Seq<Block>)
    ensures
        sorted_by_index(sort_by_index(s)),
        sort_by_index(s).len() == s.len(),
    decreases s.len(),
{
    if s.len() > 0 {
        let t = sort_by_index(s.drop_last());
        lemma_sort_sorted(s.drop_last());
        let b = s.last();
        let p = insert_pos(t, b.index) as int;
        lemma_insert_pos(t, b.index);
        let u = t.insert(p, b);
        assert forall|i: int, j: int| 0 <= i < j < u.len() implies u[i].index <= u[j].index by {
            if j < p {
                assert(u[i] == t[i] && u[j] == t[j]);
            } else if j == p {
                assert(u[i] == t[i]);
            } else if i > p {
                assert(u[i] == t[i - 1] && u[j] == t[j - 1]);
            } else if i == p {
                assert(u[j] == t[j - 1]);
                assert(t[p].index <= t[j - 1].index);
            } else {
                assert(u[i] == t[i] && u[j] == t[j - 1]);
            }
        }
    }
}

/// Sorting blocks that are already in index order changes nothing.
proof fn lemma_sort_sorted_id(s: Seq<Block>)
    requires
        sorted_by_index(s),
    ensures
        sort_by_index(s) == s,
    decreases s.len(),
{
    if s.len() > 0 {
        let d = s.drop_last();
        lemma_sort_sorted_id(d);
        lemma_insert_pos_all(d, s.last().index);
        assert(d.insert(d.len() as int, s.last()) =~= s);
    }
}

/// Sorting by index keeps every block, as many times as it occurs.
pub proof fn lemma_sort_permutation(s: Seq<Block>)
    ensures
        sort_by_index(s).to_multiset() =~= s.to_multiset(),
    decreases s.len(),
{
    broadcast use vstd::seq_lib::group_to_multiset_ensures;

    if s.len() > 0 {
        let d = s.drop_last();
        let t = sort_by_index(d);
        lemma_sort_permutation(d);
        lemma_insert_pos(t, s.last().index);
        vstd::seq_lib::to_multiset_insert(t, insert_pos(t, s.last().index) as int, s.last());
        assert(d.push(s.last()) =~= s);
    }
}

/// Sorts blocks by index, keeping blocks of equal index in their order.
fn sort_blocks(blocks: &Vec<Block>) -> (r: Vec<Block>)
    ensures
        r@ == sort_by_index(blocks@),
{
    let mut out: Vec<Block> = Vec::new();
    let mut i: usize = 0;
    while i < blocks.len()
        invariant
            i <= blocks@.len(),
            out@ == sort_by_index(blocks@.take(i as int)),
        decreases blocks@.len() - i,
    {
        let b = blocks[i].duplicate();
        let mut pos: usize = 0;
        assert(out@.skip(0) =~= out@);
        while pos < out.len() && out[pos].index <= b.index
            invariant
                pos <= out@.len(),
                insert_pos(out@, b.index) == pos + insert_pos(out@.skip(pos as int), b.index),
            decreases out@.len() - pos,
        {
            assert(out@.skip(pos as int).drop_first() =~= out@.skip(pos as int + 1));
            pos += 1;
        }
        assert(blocks@.take(i + 1).drop_last() =~= blocks@.take(i as int));
        out.insert(pos, b);
        i += 1;
    }
    assert(blocks@.take(blocks@.len() as int) =~= blocks@);
    out
}

/// Copies a sequence of blocks.
fn copy_blocks(blocks: &Vec<Block>) -> (r: Vec<Block>)
    ensures
        r@ == blocks@,
{
    let mut out: Vec<Block> = Vec::new();
    let mut i: usize = 0;
    while i < blocks.len()
        invariant
            i <= blocks@.len(),
            out@ == blocks@.take(i as int),
        decreases blocks@.len() - i,
    {
        out.push(blocks[i].duplicate());
        assert(out@ =~= blocks@.take(i + 1));
        i += 1;
    }
    assert(blocks@.take(blocks@.len() as int) =~= blocks@);
    out
}

/// Two blocks with the same index, nonce and timestamp and the same text in
/// their data and links.
pub open spec fn same_content(a: Block, b: Block) -> bool {
    &&& a.index == b.index
    &&& a.nonce == b.nonce
    &&& a.timestamp == b.timestamp
    &&& a.data@ == b.data@
    &&& a.prev_hash@ == b.prev_hash@
}

/// `b` is a block that `t` already holds: the block of `t` at its index has
/// the same content as `b`.
pub open spec fn held(t: Seq<Block>, b: Block) -> bool {
    1 <= b.index <= t.len() && same_content(b, t[b.index - 1])
}

/// How many of the leading blocks of `s` the chain `t` already holds.
pub open spec fn held_prefix(t: Seq<Block>, s: Seq<Block>) -> nat
    decreases s.len(),
{
    if s.len() == 0 || !held(t, s[0]) {
        0
    } else {
        1 + held_prefix(t, s.drop_first())
    }
}

/// The outcome of merging blocks from a peer into the chain `t`: sorted by
/// index, the blocks that `t` already holds at the front are skipped and the
/// rest are appended. The merge is taken only when that gives a valid chain
/// whose indices run from 1 without gaps.
pub open spec fn merged(t: Seq<Block>, incoming: Seq<Block>, proof: nat) -> Option<Seq<Block>> {
    let s = sort_by_index(incoming);
    let c = t + s.skip(held_prefix(t, s) as int);
    if sound_chain(c, proof) {
        Some(c)
    } else {
        None
    }
}

proof fn lemma_held_prefix_len(t: Seq<Block>, s: Seq<Block>)
    ensures
        held_prefix(t, s) <= s.len(),
    decreases s.len(),
{
    if s.len() > 0 && held(t, s[0]) {
        lemma_held_prefix_len(t, s.drop_first());
    }
}

proof fn lemma_held_all(t: Seq<Block>, s: Seq<Block>)
    requires
        forall|i: int| 0 <= i < s.len() ==> held(t, #[trigger] s[i]),
    ensures
        held_prefix(t, s) == s.len(),
    decreases s.len(),
{
    if s.len() > 0 {
        assert(held(t, s[0]));
        assert forall|i: int| 0 <= i < s.drop_first().len() implies held(
            t,
            #[trigger] s.drop_first()[i],
        ) by {
            assert(s.drop_first()[i] == s[i + 1]);
        }
        lemma_held_all(t, s.drop_first());
    }
}

/// Whether `t` already holds `b`.
fn holds(t: &Vec<Block>, b: &Block) -> (r: bool)
    ensures
        r == held(t@, *b),
{
    if b.index == 0 || b.index > t.len() as u64 {
        return false;
    }
    same_block(b, &t[(b.index - 1) as usize])
}

/// Whether two blocks have the same content.
fn same_block(a: &Block, b: &Block) -> (r: bool)
    ensures
        r == same_content(*a, *b),
{
    let same_nonce = match (a.nonce, b.nonce) {
        (Some(x), Some(y)) => x == y,
        (None, None) => true,
        _ => false,
    };
    let r = a.index == b.index && same_nonce && a.timestamp.secs == b.timestamp.secs
        && a.timestamp.nanos == b.timestamp.nanos && a.data == b.data && a.prev_hash == b.prev_hash;
    proof {
        if r {
            assert(a.nonce == b.nonce);
            assert(a.timestamp == b.timestamp);
        }
    }
    r
}

/// Two sequences that agree on their first `n` blocks break the chain at
/// the same positions below `n`.
proof fn lemma_bad_at_prefix(a: Seq<Block>, b: Seq<Block>, n: int, i: int, proof: nat)
    requires
        0 <= i < n <= a.len(),
        n <= b.len(),
        forall|j: int| 0 <= j < n ==> a[j] == b[j],
    ensures
        bad_at(a, i, proof) == bad_at(b, i, proof),
{
    assert(a[i] == b[i]);
    if i > 0 {
        assert(a[i - 1] == b[i - 1]);
    }
}

/// Where the indices of `s` stop running `from + 1, from + 2, ...`: the
/// first position at or after `from` whose index is not its position plus
/// one, or the length.
pub open spec fn index_run(s: Seq<Block>, from: int) -> int
    decreases s.len() - from,
{
    if from < 0 || from >= s.len() {
        s.len() as int
    } else if s[from].index != from + 1 {
        from
    } else {
        index_run(s, from + 1)
    }
}

/// The longest prefix of `s` whose indices run 1, 2, 3, ...
pub open spec fn indexed_prefix(s: Seq<Block>) -> Seq<Block> {
    s.take(index_run(s, 0))
}

/// What loading `blocks` leaves: sorted by index, validated, and cut where
/// the indices stop running from 1 without gaps.
pub open spec fn loaded(blocks: Seq<Block>, proof: nat) -> Seq<Block> {
    indexed_prefix(truncated(sort_by_index(blocks), proof))
}

/// A block that could follow the last block of `t` with `data` was mined,
/// and no nonce works for the timestamp it ended on.
pub open spec fn exhausted_after(t: Seq<Block>, data: String, proof: nat) -> bool {
    exists|b: Block|
        b.index == t.last().index + 1 && b.data == data && b.prev_hash@ == block_hash(t.last())
            && #[trigger] exhausted(b, proof)
}

/// No nonce works for a first block mined at the timestamp it ended on.
pub open spec fn genesis_exhausted(proof: nat) -> bool {
    exists|b: Block|
        b.index == 1 && b.data@ == GENESIS_DATA@ && b.prev_hash@ == GENESIS_PREV_HASH@
            && #[trigger] exhausted(b, proof)
}

/// `after` is `before` with one more block, holding `data`, sealed on top of
/// the last block of `before`.
pub open spec fn sealed_on(before: Seq<Block>, after: Seq<Block>, data: String, proof: nat) -> bool {
    &&& after.len() == before.len() + 1
    &&& after.drop_last() == before
    &&& after.last().data == data
    &&& after.last().index == before.last().index + 1
    &&& after.last().prev_hash@ == block_hash(before.last())
    &&& after.last().nonce is Some
    &&& block_ok(after.last(), proof)
}

proof fn lemma_index_run_found(s: Seq<Block>, from: int, p: int)
    requires
        0 <= from <= p <= s.len(),
        forall|j: int| from <= j < p ==> (#[trigger] s[j]).index == j + 1,
        p < s.len() ==> s[p].index != p + 1,
    ensures
        index_run(s, from) == p,
    decreases p - from,
{
    if from < p {
        lemma_index_run_found(s, from + 1, p);
    }
}

/// The first position at or after `start` whose index is not its position
/// plus one, or the length.
fn find_misindexed(blocks: &Vec<Block>, start: usize) -> (r: usize)
    requires
        start <= blocks@.len(),
    ensures
        start <= r <= blocks@.len(),
        forall|j: int| start <= j < r ==> (#[trigger] blocks@[j]).index == j + 1,
        r < blocks@.len() ==> blocks@[r as int].index != r + 1,
{
    let mut i = start;
    while i < blocks.len()
        invariant
            start <= i <= blocks@.len(),
            forall|j: int| start <= j < i ==> (#[trigger] blocks@[j]).index == j + 1,
        decreases blocks@.len() - i,
    {
        let position = i as u64;
        if position == u64::MAX || blocks[i].index != position + 1 {
            return i;
        }
        i += 1;
    }
    i
}

/// Cuts `blocks` where its indices stop running from 1 without gaps.
fn keep_indexed(blocks: &mut Vec<Block>)
    ensures
        final(blocks)@ == indexed_prefix(old(blocks)@),
{
    let p = find_misindexed(blocks, 0);
    proof {
        lemma_index_run_found(blocks@, 0, p as int);
    }
    while blocks.len() > p
        invariant
            p <= blocks@.len() <= old(blocks)@.len(),
            p == index_run(old(blocks)@, 0),
            blocks@ == old(blocks)@.take(blocks@.len() as int),
        decreases blocks@.len(),
    {
        blocks.pop();
        assert(blocks@ =~= old(blocks)@.take(blocks@.len() as int));
    }
}

/// Sorts, validates and cuts stored blocks into a ledger's chain.
fn load_blocks(blocks: &Vec<Block>, proof: u8) -> (r: (Vec<Block>, bool))
    ensures
        r.0@ == loaded(blocks@, proof as nat),
        sound_chain(r.0@, proof as nat),
        r.1 == sound_chain(sort_by_index(blocks@), proof as nat),
{
    let mut s = sort_blocks(blocks);
    let ghost sorted = s@;
    proof {
        lemma_sort_sorted(blocks@);
        lemma_truncated_valid(sorted, proof as nat);
    }
    let valid = verify_chain(&mut s, proof);
    let ghost t = s@;
    keep_indexed(&mut s);
    proof {
        let m = index_run(t, 0);
        lemma_index_run_range(t, 0);
        lemma_prefix_valid(t, proof as nat, m);
        assert(s@ =~= t.take(m));
        if valid && m < t.len() {
            assert(t[m].index != m + 1);
        }
        if valid && m == t.len() {
            assert(t.take(m) =~= t);
        }
    }
    let whole = valid && s.len() == blocks.len();
    (s, whole)
}

proof fn lemma_index_run_range(s: Seq<Block>, from: int)
    requires
        0 <= from <= s.len(),
    ensures
        from <= index_run(s, from) <= s.len(),
        forall|j: int| from <= j < index_run(s, from) ==> (#[trigger] s[j]).index == j + 1,
        index_run(s, from) < s.len() ==> s[index_run(s, from)].index != index_run(s, from) + 1,
    decreases s.len() - from,
{
    if from < s.len() && s[from].index == from + 1 {
        lemma_index_run_range(s, from + 1);
    }
}

/// The ledger: a valid chain, with indices from 1 without gaps, under a
/// difficulty fixed at construction.
#[derive(Clone, Debug)]
pub struct Chain {
    proof: u8,
    blocks: Vec<Block>,
}

impl View for Chain {
    type V = Seq<Block>;

    closed spec fn view(&self) -> Seq<Block> {
        self.blocks@
    }
}

impl Chain {
    /// The number of leading zero hex digits every block hash must have.
    pub closed spec fn difficulty(self) -> nat {
        self.proof as nat
    }

    pub open spec fn wf(self) -> bool {
        sound_chain(self@, self.difficulty())
    }

    /// Creates a chain holding a first block mined from the clock reading
    /// `now`.
    pub fn genesis_at(proof: u8, now: Timestamp) -> (r: Result<Chain, ChainError>)
        ensures
            !now.wf() <==> r == Err::<Chain, ChainError>(ChainError::ClockOutOfRange),
            match r {
                Ok(c) => {
                    &&& c.wf()
                    &&& c.difficulty() == proof
                    &&& proof <= 64
                    &&& c@.len() == 1
                    &&& c@[0].index == 1
                    &&& c@[0].nonce is Some
                    &&& block_ok(c@[0], proof as nat)
                    &&& not_earlier(c@[0].timestamp, now)
                    &&& c@[0].data@ == GENESIS_DATA@
                    &&& c@[0].prev_hash@ == GENESIS_PREV_HASH@
                },
                Err(e) => e == ChainError::ClockOutOfRange || (e == ChainError::Exhausted
                    && genesis_exhausted(proof as nat)),
            },
    {
        if !now.is_valid() {
            return Err(ChainError::ClockOutOfRange);
        }
        let genesis = Block {
            index: 1,
            nonce: None,
            timestamp: now,
            data: String::from_str(GENESIS_DATA),
            prev_hash: String::from_str(GENESIS_PREV_HASH),
        };
        let ghost g = genesis;
        match mine(genesis, proof) {
            Some(b) => {
                let blocks = vec![b];
                let c = Chain { proof, blocks };
                assert(c@ =~= seq![b]);
                Ok(c)
            },
            None => {
                proof {
                    let t = choose|t: Timestamp|
                        not_earlier(t, g.timestamp) && exhausted(
                            #[trigger] at_time(g, t),
                            proof as nat,
                        );
                    let w = at_time(g, t);
                    assert(exhausted(w, proof as nat));
                }
                Err(ChainError::Exhausted)
            },
        }
    }

    /// Creates a chain holding a first block mined from the clock's reading.
    pub fn new(proof: u8) -> (r: Result<Chain, ChainError>)
        ensures
            match r {
                Ok(c) => {
                    &&& c.wf()
                    &&& c.difficulty() == proof
                    &&& proof <= 64
                    &&& c@.len() == 1
                    &&& c@[0].index == 1
                    &&& c@[0].nonce is Some
                    &&& block_ok(c@[0], proof as nat)
                    &&& c@[0].data@ == GENESIS_DATA@
                    &&& c@[0].prev_hash@ == GENESIS_PREV_HASH@
                },
                Err(e) => e == ChainError::ClockOutOfRange || (e == ChainError::Exhausted
                    && genesis_exhausted(proof as nat)),
            },
    {
        Chain::genesis_at(proof, clock_now())
    }

    pub fn get_difficulty(&self) -> (r: u8)
        ensures
            r as nat == self.difficulty(),
    {
        self.proof
    }

    pub fn len(&self) -> (r: usize)
        ensures
            r == self@.len(),
    {
        self.blocks.len()
    }

    /// A copy of the blocks, oldest first.
    pub fn get_chain(&self) -> (r: Vec<Block>)
        ensures
            r@ == self@,
    {
        copy_blocks(&self.blocks)
    }

    pub fn get_last_block(&self) -> (r: Result<Block, ChainError>)
        ensures
            self@.len() == 0 ==> r == Err::<Block, ChainError>(ChainError::EmptyChain),
            self@.len() > 0 ==> r == Ok::<Block, ChainError>(self@.last()),
    {
        let n = self.blocks.len();
        if n == 0 {
            Err(ChainError::EmptyChain)
        } else {
            Ok(self.blocks[n - 1].duplicate())
        }
    }

    /// Mines a block holding `data` on top of the last block, starting from
    /// the clock reading `now`, and appends it.
    pub fn create_block_at(&mut self, data: String, now: Timestamp) -> (r: Result<(), ChainError>)
        requires
            old(self).wf(),
        ensures
            final(self).wf(),
            final(self).difficulty() == old(self).difficulty(),
            old(self)@.len() == 0 <==> r == Err::<(), ChainError>(ChainError::EmptyChain),
            (old(self)@.len() > 0 && old(self)@.last().index == u64::MAX) <==> r == Err::<
                (),
                ChainError,
            >(ChainError::IndexOverflow),
            (old(self)@.len() > 0 && old(self)@.last().index < u64::MAX) ==> (!now.wf() <==> r
                == Err::<(), ChainError>(ChainError::ClockOutOfRange)),
            r != Err::<(), ChainError>(ChainError::Conflict),
            r == Err::<(), ChainError>(ChainError::Exhausted) ==> exhausted_after(
                old(self)@,
                data,
                old(self).difficulty(),
            ),
            r is Err ==> final(self)@ == old(self)@,
            r is Ok ==> sealed_on(old(self)@, final(self)@, data, old(self).difficulty())
                && not_earlier(final(self)@.last().timestamp, now),
    {
        let n = self.blocks.len();
        if n == 0 {
            return Err(ChainError::EmptyChain);
        }
        let last = &self.blocks[n - 1];
        assert(!bad_at(self@, n - 1, self.difficulty()));
        if last.index == u64::MAX {
            return Err(ChainError::IndexOverflow);
        }
        if !now.is_valid() {
            return Err(ChainError::ClockOutOfRange);
        }
        let candidate = Block {
            index: last.index + 1,
            nonce: None,
            timestamp: now,
            data,
            prev_hash: last.hash(),
        };
        let ghost c = candidate;
        match mine(candidate, self.proof) {
            Some(b) => {
                let ghost before = self@;
                self.blocks.push(b);
                assert(self@.drop_last() =~= before);
                assert forall|i: int| 0 <= i < self@.len() implies !bad_at(
                    self@,
                    i,
                    self.difficulty(),
                ) by {
                    if i < before.len() {
                        assert(!bad_at(before, i, self.difficulty()));
                        if i > 0 {
                            assert(self@[i - 1] == before[i - 1]);
                        }
                    }
                }
                assert forall|i: int| 0 <= i < self@.len() implies (#[trigger] self@[i]).index
                    == i + 1 by {
                    if i < before.len() {
                        assert(self@[i] == before[i]);
                    }
                }
                Ok(())
            },
            None => {
                proof {
                    let t = choose|t: Timestamp|
                        not_earlier(t, c.timestamp) && exhausted(
                            #[trigger] at_time(c, t),
                            self.difficulty(),
                        );
                    let w = at_time(c, t);
                    assert(exhausted(w, self.difficulty()));
                }
                Err(ChainError::Exhausted)
            },
        }
    }

    /// Mines a block holding `data` on top of the last block, from the
    /// clock's reading, and appends it.
    pub fn create_block(&mut self, data: String) -> (r: Result<(), ChainError>)
        requires
            old(self).wf(),
        ensures
            final(self).wf(),
            final(self).difficulty() == old(self).difficulty(),
            old(self)@.len() == 0 <==> r == Err::<(), ChainError>(ChainError::EmptyChain),
            (old(self)@.len() > 0 && old(self)@.last().index == u64::MAX) <==> r == Err::<
                (),
                ChainError,
            >(ChainError::IndexOverflow),
            r != Err::<(), ChainError>(ChainError::Conflict),
            r == Err::<(), ChainError>(ChainError::Exhausted) ==> exhausted_after(
                old(self)@,
                data,
                old(self).difficulty(),
            ),
            r is Err ==> final(self)@ == old(self)@,
            r is Ok ==> sealed_on(old(self)@, final(self)@, data, old(self).difficulty()),
    {
        self.create_block_at(data, clock_now())
    }

    /// A chain rebuilt from stored blocks: sorted by index, validated, which
    /// drops whatever follows the first broken block, and cut where the
    /// indices stop running from 1 without gaps.
    pub fn reload_chain(proof: u8, blocks: Vec<Block>) -> (r: Chain)
        ensures
            r.wf(),
            r.difficulty() == proof,
            r@ == loaded(blocks@, proof as nat),
    {
        let (s, _) = load_blocks(&blocks, proof);
        Chain { proof, blocks: s }
    }

    /// Replaces the blocks as `reload_chain` would load `blocks`; returns
    /// whether they formed, once sorted, a valid chain with indices from 1
    /// without gaps.
    pub fn replace_chain(&mut self, blocks: Vec<Block>) -> (r: bool)
        ensures
            final(self).wf(),
            final(self).difficulty() == old(self).difficulty(),
            r == sound_chain(sort_by_index(blocks@), old(self).difficulty()),
            final(self)@ == loaded(blocks@, old(self).difficulty()),
    {
        let (s, whole) = load_blocks(&blocks, self.proof);
        self.blocks = s;
        whole
    }

    /// Merges blocks received from a peer. Sorted by index, those the chain
    /// already holds at the front are skipped and the rest appended; when
    /// that does not give a valid chain with indices from 1 without gaps,
    /// nothing changes and the result is `Conflict`.
    pub fn add_external_blocks(&mut self, blocks: Vec<Block>) -> (r: Result<(), ChainError>)
        requires
            old(self).wf(),
        ensures
            final(self).wf(),
            final(self).difficulty() == old(self).difficulty(),
            match merged(old(self)@, blocks@, old(self).difficulty()) {
                Some(c) => r == Ok::<(), ChainError>(()) && final(self)@ == c,
                None => r == Err::<(), ChainError>(ChainError::Conflict) && final(self)@ == old(
                    self,
                )@,
            },
    {
        let ghost t = self@;
        let ghost d = self.difficulty();
        let s = sort_blocks(&blocks);
        proof {
            assert forall|i: int| 0 <= i < t.len() implies (#[trigger] t[i]).wf() by {
                assert(!bad_at(t, i, d));
            }
            assert(s@.skip(0) =~= s@);
        }
        let mut k: usize = 0;
        while k < s.len() && holds(&self.blocks, &s[k])
            invariant
                self@ == t,
                forall|i: int| 0 <= i < t.len() ==> (#[trigger] t[i]).wf(),
                k <= s@.len(),
                held_prefix(t, s@) == k + held_prefix(t, s@.skip(k as int)),
            decreases s@.len() - k,
        {
            assert(s@.skip(k as int).drop_first() =~= s@.skip(k as int + 1));
            k += 1;
        }
        let mut c = copy_blocks(&self.blocks);
        let start = c.len();
        let mut j = k;
        while j < s.len()
            invariant
                k <= j <= s@.len(),
                start == t.len(),
                c@ == t + s@.subrange(k as int, j as int),
            decreases s@.len() - j,
        {
            c.push(s[j].duplicate());
            assert(c@ =~= t + s@.subrange(k as int, j + 1));
            j += 1;
        }
        proof {
            assert(s@.subrange(k as int, s@.len() as int) =~= s@.skip(k as int));
            assert(c@ == t + s@.skip(held_prefix(t, s@) as int));
        }
        let p = find_bad(&c, start, self.proof);
        let q = find_misindexed(&c, start);
        proof {
            assert forall|i: int| 0 <= i < start implies !bad_at(c@, i, d) by {
                assert(!bad_at(t, i, d));
                lemma_bad_at_prefix(c@, t, start as int, i, d);
            }
            assert forall|i: int| 0 <= i < start implies (#[trigger] c@[i]).index == i + 1 by {
                assert(c@[i] == t[i]);
            }
        }
        if p == c.len() && q == c.len() {
            self.blocks = c;
            Ok(())
        } else {
            Err(ChainError::Conflict)
        }
    }
}

/// Merging into a ledger's chain the blocks it holds from any position on
/// leaves it as it is, and succeeds.
pub proof fn lemma_merge_own_suffix(t: Seq<Block>, proof: nat, j: int)
    requires
        sound_chain(t, proof),
        0 <= j <= t.len(),
    ensures
        merged(t, t.skip(j), proof) == Some(t),
{
    let s = t.skip(j);
    assert(sorted_by_index(s)) by {
        assert forall|a: int, b: int| 0 <= a < b < s.len() implies s[a].index <= s[b].index by {
            assert(t[j + a].index == j + a + 1);
            assert(t[j + b].index == j + b + 1);
        }
    }
    lemma_sort_sorted_id(s);
    assert forall|i: int| 0 <= i < s.len() implies held(t, #[trigger] s[i]) by {
        assert(s[i] == t[j + i]);
        assert(!bad_at(t, j + i, proof));
        assert(t[j + i].index == j + i + 1);
    }
    lemma_held_all(t, s);
    assert(t + s.skip(s.len() as int) =~= t);
}

/// Loading the blocks of a ledger's chain, in their order, gives the chain
/// back.
pub proof fn lemma_reload_round_trip(t: Seq<Block>, proof: nat)
    requires
        sound_chain(t, proof),
    ensures
        loaded(t, proof) == t,
{
    assert(sorted_by_index(t)) by {
        assert forall|a: int, b: int| 0 <= a < b < t.len() implies t[a].index <= t[b].index by {
            assert(t[a].index == a + 1);
            assert(t[b].index == b + 1);
        }
    }
    lemma_sort_sorted_id(t);
    lemma_valid_iff_no_bad(t, proof);
    lemma_index_run_found(t, 0, t.len() as int);
    assert(t.take(t.len() as int) =~= t);
}

proof fn lemma_held_prefix_held(t: Seq<Block>, s: Seq<Block>)
    ensures
        held_prefix(t, s) <= s.len(),
        forall|j: int| 0 <= j < held_prefix(t, s) ==> held(t, #[trigger] s[j]),
    decreases s.len(),
{
    if s.len() > 0 && held(t, s[0]) {
        lemma_held_prefix_held(t, s.drop_first());
        assert forall|j: int| 0 <= j < held_prefix(t, s) implies held(t, #[trigger] s[j]) by {
            if j > 0 {
                assert(s[j] == s.drop_first()[j - 1]);
            }
        }
    }
}

/// After a merge that succeeds, every block that was sent has a block of
/// the same content in the chain.
pub proof fn lemma_merge_keeps_incoming(t: Seq<Block>, incoming: Seq<Block>, proof: nat)
    requires
        merged(t, incoming, proof) is Some,
    ensures
        forall|i: int|
            0 <= i < incoming.len() ==> exists|j: int|
                0 <= j < merged(t, incoming, proof)->0.len() && same_content(
                    #[trigger] incoming[i],
                    merged(t, incoming, proof)->0[j],
                ),
{
    broadcast use vstd::seq_lib::group_to_multiset_ensures;

    let s = sort_by_index(incoming);
    let k = held_prefix(t, s) as int;
    let c = merged(t, incoming, proof)->0;
    lemma_held_prefix_held(t, s);
    lemma_sort_permutation(incoming);
    assert forall|i: int| 0 <= i < incoming.len() implies exists|j: int|
        0 <= j < c.len() && same_content(#[trigger] incoming[i], c[j]) by {
        let b = incoming[i];
        assert(incoming.to_multiset().count(b) > 0);
        assert(s.to_multiset().count(b) > 0);
        let p = choose|p: int| 0 <= p < s.len() && s[p] == b;
        if p < k {
            assert(held(t, s[p]));
            let q = b.index - 1;
            assert(c[q] == t[q]);
        } else {
            assert(c[t.len() + p - k] == s[p]);
        }
    }
}

} // verus!
