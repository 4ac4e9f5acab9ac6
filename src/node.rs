//! A ledger node: its address, its peers, its pool of pending transactions
//! and its chain. Transactions are opaque JSON texts here; each tick of the
//! scheduler seals up to a batch of them, oldest first, into one block.
use crate::blockchain::{exhausted_after, genesis_exhausted, loaded, merged, Chain, ChainError};
use crate::chain::block_ok;
use crate::codec::{block_hash, clock_now, list_of, list_text, views, Block, Timestamp};
use crate::miner::{exhausted, not_earlier};
use vstd::prelude::*;
use vstd::string::*;

verus! {

/// The most transactions one block seals.
pub const BATCH_SIZE: usize = 5;

/// The path under which a peer takes blocks.
pub const BLOCKS_PATH: &'static str = "/ntn/add-blocks";

/// The path under which a peer takes a relayed transaction.
pub const TRANSACTION_PATH: &'static str = "/ntn/add-transaction";

/// The path under which a peer takes the address of a new node.
pub const NODE_PATH: &'static str = "/ntn/add-node";

/// `nodes` without the entries equal to `name`, in their order.
pub open spec fn without(nodes: Seq<String>, name: Seq<char>) -> Seq<String>
    decreases nodes.len(),
{
    if nodes.len() == 0 {
        nodes
    } else {
        let rest = without(nodes.drop_last(), name);
        if nodes.last()@ == name {
            rest
        } else {
            rest.push(nodes.last())
        }
    }
}

pub open spec fn has_address(nodes: Seq<String>, a: Seq<char>) -> bool {
    exists|i: int| 0 <= i < nodes.len() && (#[trigger] nodes[i])@ == a
}

/// How many of `n` pending transactions one tick seals.
pub open spec fn batch_len(n: nat) -> nat {
    if n < BATCH_SIZE {
        n
    } else {
        BATCH_SIZE as nat
    }
}

/// A peer's announcement of its address.
#[derive(Clone, Debug, PartialEq, Eq)]
pub struct ExternalNode {
    pub url: String,
}

/// The entries of `nodes` other than `name`, in their order.
fn peers_without(nodes: &Vec<String>, name: &String) -> (r: Vec<String>)
    ensures
        r@ == without(nodes@, name@),
        !has_address(r@, name@),
{
    let mut peers: Vec<String> = Vec::new();
    let mut i: usize = 0;
    while i < nodes.len()
        invariant
            i <= nodes@.len(),
            peers@ == without(nodes@.take(i as int), name@),
            !has_address(peers@, name@),
        decreases nodes@.len() - i,
    {
        assert(nodes@.take(i + 1).drop_last() =~= nodes@.take(i as int));
        if !(nodes[i] == *name) {
            let ghost before = peers@;
            peers.push(nodes[i].clone());
            assert forall|j: int| 0 <= j < peers@.len() implies (#[trigger] peers@[j])@
                != name@ by {
                if j < before.len() {
                    assert(peers@[j] == before[j]);
                }
            }
        }
        i += 1;
    }
    assert(nodes@.take(nodes@.len() as int) =~= nodes@);
    peers
}

#[derive(Clone, Debug)]
pub struct CriptoCurrency {
    name: String,
    mempool: Vec<String>,
    nodes: Vec<String>,
    blockchain: Chain,
}

impl CriptoCurrency {
    /// This node's own address.
    pub closed spec fn address(self) -> Seq<char> {
        self.name@
    }

    /// Transactions waiting to be sealed, oldest first.
    pub closed spec fn pending(self) -> Seq<String> {
        self.mempool@
    }

    pub closed spec fn peers(self) -> Seq<String> {
        self.nodes@
    }

    pub closed spec fn ledger(self) -> Chain {
        self.blockchain
    }

    /// The chain is valid and no peer carries the node's own address.
    pub open spec fn wf(self) -> bool {
        &&& self.ledger().wf()
        &&& !has_address(self.peers(), self.address())
    }

    /// A node at `name` with a freshly mined chain, an empty pool, and as
    /// peers the entries of `nodes` other than its own address.
    pub fn new(name: String, proof: u8, nodes: Vec<String>) -> (r: Result<
        CriptoCurrency,
        ChainError,
    >)
        ensures
            match r {
                Ok(c) => {
                    &&& c.wf()
                    &&& c.address() == name@
                    &&& c.pending() == Seq::<String>::empty()
                    &&& c.peers() == without(nodes@, name@)
                    &&& c.ledger().difficulty() == proof
                    &&& c.ledger()@.len() == 1
                    &&& c.ledger()@[0].index == 1
                    &&& c.ledger()@[0].nonce is Some
                    &&& block_ok(c.ledger()@[0], proof as nat)
                    &&& proof <= 64
                },
                Err(e) => e == ChainError::ClockOutOfRange || (e == ChainError::Exhausted
                    && genesis_exhausted(proof as nat)),
            },
    {
        let peers = peers_without(&nodes, &name);
        match Chain::new(proof) {
            Ok(blockchain) => Ok(CriptoCurrency { name, mempool: Vec::new(), nodes: peers, blockchain }),
            Err(e) => Err(e),
        }
    }

    /// A node at `name` whose chain is rebuilt from stored blocks (see
    /// `Chain::reload_chain`), with an empty pool.
    pub fn reload(name: String, proof: u8, nodes: Vec<String>, blocks: Vec<Block>) -> (r:
        CriptoCurrency)
        ensures
            r.wf(),
            r.address() == name@,
            r.pending() == Seq::<String>::empty(),
            r.peers() == without(nodes@, name@),
            r.ledger().difficulty() == proof,
            r.ledger()@ == loaded(blocks@, proof as nat),
    {
        let peers = peers_without(&nodes, &name);
        let blockchain = Chain::reload_chain(proof, blocks);
        CriptoCurrency { name, mempool: Vec::new(), nodes: peers, blockchain }
    }

    pub fn name(&self) -> (r: String)
        ensures
            r@ == self.address(),
    {
        self.name.clone()
    }

    /// A copy of the chain's blocks, oldest first.
    pub fn get_chain(&self) -> (r: Vec<Block>)
        ensures
            r@ == self.ledger()@,
    {
        self.blockchain.get_chain()
    }

    pub fn pending_len(&self) -> (r: usize)
        ensures
            r == self.pending().len(),
    {
        self.mempool.len()
    }

    /// A copy of the pending transactions, oldest first.
    pub fn get_pending(&self) -> (r: Vec<String>)
        ensures
            r@ == self.pending(),
    {
        let mut out: Vec<String> = Vec::new();
        let mut i: usize = 0;
        while i < self.mempool.len()
            invariant
                i <= self.mempool@.len(),
                out@ == self.mempool@.take(i as int),
            decreases self.mempool@.len() - i,
        {
            out.push(self.mempool[i].clone());
            assert(out@ =~= self.mempool@.take(i + 1));
            i += 1;
        }
        assert(self.mempool@.take(self.mempool@.len() as int) =~= self.mempool@);
        out
    }

    /// Each peer's address followed by `path`, in the order of the peers.
    pub fn peer_urls(&self, path: &str) -> (r: Vec<String>)
        ensures
            r@.len() == self.peers().len(),
            forall|i: int| 0 <= i < r@.len() ==> (#[trigger] r@[i])@ == self.peers()[i]@ + path@,
    {
        let mut out: Vec<String> = Vec::new();
        let mut i: usize = 0;
        while i < self.nodes.len()
            invariant
                i <= self.nodes@.len(),
                out@.len() == i,
                forall|j: int| 0 <= j < i ==> (#[trigger] out@[j])@ == self.nodes@[j]@ + path@,
            decreases self.nodes@.len() - i,
        {
            let url = self.nodes[i].clone().concat(path);
            out.push(url);
            i += 1;
        }
        out
    }

    /// Queues a transaction created at this node. Returns the addresses to
    /// which it is to be relayed.
    pub fn add_transaction(&mut self, transaction: String) -> (r: Vec<String>)
        ensures
            final(self).pending() == old(self).pending().push(transaction),
            final(self).peers() == old(self).peers(),
            final(self).address() == old(self).address(),
            final(self).ledger() == old(self).ledger(),
            r@.len() == old(self).peers().len(),
            forall|i: int|
                0 <= i < r@.len() ==> (#[trigger] r@[i])@ == old(self).peers()[i]@
                    + TRANSACTION_PATH@,
    {
        self.mempool.push(transaction);
        self.peer_urls(TRANSACTION_PATH)
    }

    /// Queues a transaction relayed by a peer; it is not relayed further.
    pub fn add_external_transaction(&mut self, transaction: String)
        ensures
            final(self).pending() == old(self).pending().push(transaction),
            final(self).peers() == old(self).peers(),
            final(self).address() == old(self).address(),
            final(self).ledger() == old(self).ledger(),
    {
        self.mempool.push(transaction);
    }

    /// Adds a peer unless it is this node or already a peer; returns whether
    /// it was added.
    pub fn add_node(&mut self, node: String) -> (r: bool)
        requires
            old(self).wf(),
        ensures
            final(self).wf(),
            r == !(node@ == old(self).address() || has_address(old(self).peers(), node@)),
            r ==> final(self).peers() == old(self).peers().push(node),
            !r ==> final(self).peers() == old(self).peers(),
            final(self).pending() == old(self).pending(),
            final(self).address() == old(self).address(),
            final(self).ledger() == old(self).ledger(),
    {
        if node == self.name {
            return false;
        }
        let mut i: usize = 0;
        while i < self.nodes.len()
            invariant
                *self == *old(self),
                self.wf(),
                i <= self.nodes@.len(),
                forall|j: int| 0 <= j < i ==> (#[trigger] self.nodes@[j])@ != node@,
            decreases self.nodes@.len() - i,
        {
            if self.nodes[i] == node {
                return false;
            }
            i += 1;
        }
        let ghost before = self.nodes@;
        self.nodes.push(node);
        assert forall|j: int| 0 <= j < self.nodes@.len() implies (#[trigger] self.nodes@[j])@
            != self.name@ by {
            if j < before.len() {
                assert(self.nodes@[j] == before[j]);
            }
        }
        true
    }

    /// Takes a peer's announcement: its address becomes a peer as by `add_node`.
    pub fn add_external_node(&mut self, node: ExternalNode) -> (r: bool)
        requires
            old(self).wf(),
        ensures
            final(self).wf(),
            r == !(node.url@ == old(self).address() || has_address(old(self).peers(), node.url@)),
            r ==> final(self).peers() == old(self).peers().push(node.url),
            !r ==> final(self).peers() == old(self).peers(),
            final(self).pending() == old(self).pending(),
            final(self).address() == old(self).address(),
            final(self).ledger() == old(self).ledger(),
    {
        self.add_node(node.url)
    }

    /// Merges blocks from a peer into the chain (see `Chain::add_external_blocks`).
    pub fn add_external_blocks(&mut self, blocks: Vec<Block>) -> (r: Result<(), ChainError>)
        requires
            old(self).wf(),
        ensures
            final(self).wf(),
            final(self).ledger().difficulty() == old(self).ledger().difficulty(),
            final(self).pending() == old(self).pending(),
            final(self).peers() == old(self).peers(),
            final(self).address() == old(self).address(),
            match merged(old(self).ledger()@, blocks@, old(self).ledger().difficulty()) {
                Some(c) => r == Ok::<(), ChainError>(()) && final(self).ledger()@ == c,
                None => r == Err::<(), ChainError>(ChainError::Conflict) && final(self).ledger()@
                    == old(self).ledger()@,
            },
    {
        self.blockchain.add_external_blocks(blocks)
    }

    /// The text the next tick seals: the oldest pending transactions, up to a
    /// batch, as a JSON array.
    pub open spec fn batch_text(self) -> Seq<char> {
        list_text(views(self.pending()).take(batch_len(self.pending().len()) as int))
    }

    /// What holds of a tick from `before` to `after` with result `r`, however
    /// the clock reads.
    pub open spec fn ticked(before: Self, after: Self, r: Result<Option<Block>, ChainError>) -> bool {
        let t = before.ledger()@;
        let d = before.ledger().difficulty();
        &&& after.wf()
        &&& after.ledger().difficulty() == d
        &&& after.peers() == before.peers()
        &&& after.address() == before.address()
        &&& before.pending().len() == 0 <==> r == Ok::<Option<Block>, ChainError>(None)
        &&& (before.pending().len() > 0 && t.len() == 0) <==> r == Err::<Option<Block>, ChainError>(
            ChainError::EmptyChain,
        )
        &&& (before.pending().len() > 0 && t.len() > 0 && t.last().index == u64::MAX) <==> r
            == Err::<Option<Block>, ChainError>(ChainError::IndexOverflow)
        &&& r != Err::<Option<Block>, ChainError>(ChainError::Conflict)
        &&& r == Err::<Option<Block>, ChainError>(ChainError::Exhausted) ==> batch_exhausted(
            t,
            before.batch_text(),
            d,
        )
        &&& match r {
            Ok(Some(b)) => {
                &&& before.pending().len() > 0
                &&& after.pending() == before.pending().skip(batch_len(before.pending().len()) as int)
                &&& after.ledger()@ == t.push(b)
                &&& b.data@ == before.batch_text()
                &&& b.index == t.last().index + 1
                &&& b.prev_hash@ == block_hash(t.last())
                &&& b.nonce is Some
                &&& block_ok(b, d)
            },
            _ => after.pending() == before.pending() && after.ledger()@ == t,
        }
    }

    /// One tick of the scheduler, with the clock reading `now`. With nothing
    /// pending, nothing happens. Otherwise the oldest transactions, up to a
    /// batch, are sealed as a JSON array into a new block, which is returned,
    /// and leave the pool. When sealing fails, the pool and the chain stay as
    /// they were.
    pub fn mining_tick_at(&mut self, now: Timestamp) -> (r: Result<Option<Block>, ChainError>)
        requires
            old(self).wf(),
        ensures
            Self::ticked(*old(self), *final(self), r),
            (old(self).pending().len() > 0 && old(self).ledger()@.len() > 0 && old(
                self,
            ).ledger()@.last().index < u64::MAX) ==> (!now.wf() <==> r == Err::<
                Option<Block>,
                ChainError,
            >(ChainError::ClockOutOfRange)),
            r matches Ok(Some(b)) ==> not_earlier(b.timestamp, now),
    {
        let len = self.mempool.len();
        if len == 0 {
            return Ok(None);
        }
        let n = if len < BATCH_SIZE {
            len
        } else {
            BATCH_SIZE
        };
        let data = list_of(&self.mempool, n);
        let ghost text = data@;
        let ghost d = data;
        match self.blockchain.create_block_at(data, now) {
            Err(e) => {
                proof {
                    if e == ChainError::Exhausted {
                        let t = old(self).blockchain@;
                        let b = choose|b: Block|
                            b.index == t.last().index + 1 && b.data == d && b.prev_hash@
                                == block_hash(t.last()) && #[trigger] exhausted(
                                b,
                                old(self).blockchain.difficulty(),
                            );
                        assert(exhausted(b, old(self).blockchain.difficulty()));
                    }
                }
                Err(e)
            },
            Ok(()) => {
                let mut rest: Vec<String> = Vec::new();
                let mut i: usize = n;
                while i < self.mempool.len()
                    invariant
                        n <= i <= self.mempool@.len(),
                        rest@ == self.mempool@.subrange(n as int, i as int),
                    decreases self.mempool@.len() - i,
                {
                    rest.push(self.mempool[i].clone());
                    assert(rest@ =~= self.mempool@.subrange(n as int, i + 1));
                    i += 1;
                }
                self.mempool = rest;
                assert(self.mempool@ =~= old(self).mempool@.skip(n as int));
                match self.blockchain.get_last_block() {
                    Ok(b) => {
                        assert(self.blockchain@ =~= old(self).blockchain@.push(b));
                        Ok(Some(b))
                    },
                    Err(e) => Err(e),
                }
            },
        }
    }

    /// One tick of the scheduler, with the clock's reading (see
    /// `mining_tick_at`).
    pub fn mining_tick(&mut self) -> (r: Result<Option<Block>, ChainError>)
        requires
            old(self).wf(),
        ensures
            Self::ticked(*old(self), *final(self), r),
    {
        self.mining_tick_at(clock_now())
    }
}

/// A block that could follow the last block of `t` with the data `text` was
/// mined, and no nonce works for the timestamp it ended on.
pub open spec fn batch_exhausted(t: Seq<Block>, text: Seq<char>, proof: nat) -> bool {
    exists|b: Block|
        b.index == t.last().index + 1 && b.data@ == text && b.prev_hash@ == block_hash(t.last())
            && #[trigger] exhausted(b, proof)
}

} // verus!
