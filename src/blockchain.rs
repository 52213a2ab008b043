//! The node's canonical chain: genesis first, each block a valid successor
//! of the one before it, extended only through validated appends.

use vstd::prelude::*;
use crate::block::{
    Block, all_sources, is_genesis, block_hash, block_valid, meets_target, no_double_spend,
    transactions_valid, collect_sources,
};
use crate::encoding::bytes_eq;
use crate::transaction::{Input, OutputRef};

verus! {

/// Why an append was refused, or that it was accepted.
#[derive(Clone, Copy, Debug, PartialEq, Eq, Structural)]
pub enum AppendOutcome {
    Accepted,
    /// The tip already has this id or a later one.
    Stale,
    /// The block does not follow the tip directly: a gap in ids or a
    /// previous hash other than the tip's.
    NonContiguous,
    /// The target differs from the tip's, or the hash does not meet it.
    InvalidProof,
    /// A transaction is invalid, or an input spends an output that does not
    /// exist, is misquoted, or was already spent.
    InvalidTransaction,
}

/// The tip's hash at the time it was recorded, and the tip's position.
#[derive(Clone, Debug)]
pub struct Checkpoint {
    pub height: usize,
    pub state: Vec<u8>,
}

pub struct Blockchain {
    pub chain: Vec<Block>,
    pub last_cp: Option<Checkpoint>,
}

/// Every adjacent pair, from index 1 on, is a valid link.
pub open spec fn chain_valid(c: Seq<Block>) -> bool {
    forall|i: int| 1 <= i < c.len() ==> #[trigger] block_valid(c[i], c[i - 1])
}

/// Every output reference spent anywhere in the chain.
pub open spec fn chain_sources(c: Seq<Block>) -> Seq<OutputRef>
    decreases c.len(),
{
    if c.len() == 0 {
        Seq::empty()
    } else {
        chain_sources(c.drop_last()) + all_sources(c.last().transactions@)
    }
}

/// The input spends an output that exists in the chain, quotes it exactly,
/// and that no block of the chain has spent yet.
pub open spec fn input_available(c: Seq<Block>, inp: Input) -> bool {
    let r = inp.source;
    &&& r.block < c.len()
    &&& r.tx < c[r.block as int].transactions@.len()
    &&& r.output < c[r.block as int].transactions@[r.tx as int].outputs@.len()
    &&& c[r.block as int].transactions@[r.tx as int].outputs@[r.output as int].recipient@
        == inp.spent.recipient@
    &&& c[r.block as int].transactions@[r.tx as int].outputs@[r.output as int].amount
        == inp.spent.amount
    &&& !chain_sources(c).contains(r)
}

pub open spec fn inputs_available(c: Seq<Block>, b: Block) -> bool {
    forall|i: int, k: int|
        0 <= i < b.transactions@.len() && 0 <= k < b.transactions@[i].inputs@.len()
            ==> input_available(c, #[trigger] b.transactions@[i].inputs@[k])
}

/// What appending `b` to the chain `c` (not empty) yields.
pub open spec fn append_outcome(c: Seq<Block>, b: Block) -> AppendOutcome {
    let tip = c.last();
    if b.id <= tip.id {
        AppendOutcome::Stale
    } else if b.id != tip.id + 1 || b.prev_hash@ != block_hash(tip) {
        AppendOutcome::NonContiguous
    } else if b.target != tip.target || !meets_target(block_hash(b), b.target) {
        AppendOutcome::InvalidProof
    } else if !(transactions_valid(b.transactions@) && no_double_spend(b.transactions@)
        && inputs_available(c, b)) {
        AppendOutcome::InvalidTransaction
    } else {
        AppendOutcome::Accepted
    }
}

pub(crate) fn contains_ref(refs: &Vec<OutputRef>, r: OutputRef) -> (found: bool)
    ensures
        found == refs@.contains(r),
{
    let mut i: usize = 0;
    while i < refs.len()
        invariant
            i <= refs@.len(),
            forall|j: int| 0 <= j < i ==> refs@[j] != r,
        decreases refs@.len() - i,
    {
        if refs[i] == r {
            assert(refs@[i as int] == r);
            return true;
        }
        i = i + 1;
    }
    false
}

fn collect_chain_sources(chain: &Vec<Block>) -> (r: Vec<OutputRef>)
    ensures
        r@ == chain_sources(chain@),
{
    let mut refs: Vec<OutputRef> = Vec::new();
    let mut i: usize = 0;
    assert(chain@.take(0) =~= Seq::<Block>::empty());
    while i < chain.len()
        invariant
            i <= chain@.len(),
            refs@ == chain_sources(chain@.take(i as int)),
        decreases chain@.len() - i,
    {
        let mut more = collect_sources(&chain[i].transactions);
        refs.append(&mut more);
        assert(chain@.take(i + 1).drop_last() =~= chain@.take(i as int));
        i = i + 1;
    }
    assert(chain@.take(chain@.len() as int) =~= chain@);
    refs
}

fn input_is_available(chain: &Vec<Block>, spent: &Vec<OutputRef>, inp: &Input) -> (r: bool)
    requires
        spent@ == chain_sources(chain@),
    ensures
        r == input_available(chain@, *inp),
{
    let src = inp.source;
    if src.block >= chain.len() as u64 {
        return false;
    }
    let txs = &chain[src.block as usize].transactions;
    if src.tx >= txs.len() as u64 {
        return false;
    }
    let outs = &txs[src.tx as usize].outputs;
    if src.output >= outs.len() as u64 {
        return false;
    }
    let out = &outs[src.output as usize];
    bytes_eq(&out.recipient, &inp.spent.recipient) && out.amount == inp.spent.amount
        && !contains_ref(spent, src)
}

fn block_inputs_available(chain: &Vec<Block>, b: &Block) -> (r: bool)
    ensures
        r == inputs_available(chain@, *b),
{
    let spent = collect_chain_sources(chain);
    let mut i: usize = 0;
    while i < b.transactions.len()
        invariant
            i <= b.transactions@.len(),
            spent@ == chain_sources(chain@),
            forall|i2: int, k: int|
                0 <= i2 < i && 0 <= k < b.transactions@[i2].inputs@.len() ==> input_available(
                    chain@,
                    #[trigger] b.transactions@[i2].inputs@[k],
                ),
        decreases b.transactions@.len() - i,
    {
        let ins = &b.transactions[i].inputs;
        let mut k: usize = 0;
        while k < ins.len()
            invariant
                i < b.transactions@.len(),
                k <= ins@.len(),
                ins@ == b.transactions@[i as int].inputs@,
                spent@ == chain_sources(chain@),
                forall|i2: int, k2: int|
                    0 <= i2 < i && 0 <= k2 < b.transactions@[i2].inputs@.len() ==> input_available(
                        chain@,
                        #[trigger] b.transactions@[i2].inputs@[k2],
                    ),
                forall|k2: int| 0 <= k2 < k ==> input_available(chain@, #[trigger] ins@[k2]),
            decreases ins@.len() - k,
        {
            if !input_is_available(chain, &spent, &ins[k]) {
                return false;
            }
            k = k + 1;
        }
        i = i + 1;
    }
    true
}

impl Blockchain {
    /// A chain holding the genesis block alone.
    pub fn new() -> (r: Self)
        ensures
            r.chain@.len() == 1,
            is_genesis(r.chain@[0]),
            r.last_cp is None,
            chain_valid(r.chain@),
    {
        let mut chain: Vec<Block> = Vec::new();
        chain.push(Block::genesis());
        Blockchain { chain, last_cp: None }
    }

    /// Validates the complete blockchain.
    pub fn validate(&self) -> (r: bool)
        ensures
            r == chain_valid(self.chain@),
    {
        let mut i: usize = 1;
        while i < self.chain.len()
            invariant
                1 <= i,
                forall|j: int| 1 <= j < i && j < self.chain@.len() ==> #[trigger] block_valid(
                    self.chain@[j],
                    self.chain@[j - 1],
                ),
            decreases self.chain@.len() - i,
        {
            if !self.chain[i].validate(&self.chain[i - 1]) {
                return false;
            }
            i = i + 1;
        }
        true
    }

    /// A hash that identifies the current state of the blockchain: the tip's hash.
    pub fn state_hash(&self) -> (r: Vec<u8>)
        requires
            self.chain@.len() > 0,
        ensures
            r@ == block_hash(self.chain@.last()),
    {
        self.chain[self.chain.len() - 1].hash()
    }

    /// Records the tip's hash and position as a checkpoint.
    pub fn checkpoint(&mut self)
        requires
            old(self).chain@.len() > 0,
        ensures
            final(self).chain == old(self).chain,
            final(self).last_cp is Some,
            final(self).last_cp.unwrap().height == old(self).chain@.len() - 1,
            final(self).last_cp.unwrap().state@ == block_hash(old(self).chain@.last()),
    {
        let cp = Checkpoint { height: self.chain.len() - 1, state: self.state_hash() };
        self.last_cp = Some(cp);
    }

    /// Whether the block at the last checkpoint still has the recorded hash
    /// (true when there is no checkpoint).
    pub fn checkpoint_holds(&self) -> (r: bool)
        ensures
            r == match self.last_cp {
                None => true,
                Some(cp) => cp.height < self.chain@.len() && block_hash(self.chain@[cp.height as int])
                    == cp.state@,
            },
    {
        match &self.last_cp {
            None => true,
            Some(cp) => cp.height < self.chain.len() && bytes_eq(
                &self.chain[cp.height].hash(),
                &cp.state,
            ),
        }
    }

    /// Validates `block` against the tip and appends it if it is valid;
    /// otherwise leaves the chain as it was and says why.
    pub fn try_append(&mut self, block: Block) -> (r: AppendOutcome)
        requires
            old(self).chain@.len() > 0,
        ensures
            r == append_outcome(old(self).chain@, block),
            r == AppendOutcome::Accepted ==> final(self).chain@ == old(self).chain@.push(block),
            r != AppendOutcome::Accepted ==> final(self).chain@ == old(self).chain@,
            final(self).last_cp == old(self).last_cp,
    {
        let n = self.chain.len();
        let tip = &self.chain[n - 1];
        if block.id <= tip.id {
            return AppendOutcome::Stale;
        }
        if block.id != tip.id + 1 || !bytes_eq(&block.prev_hash, &tip.hash()) {
            return AppendOutcome::NonContiguous;
        }
        if block.target != tip.target || !block.has_valid_proof() {
            return AppendOutcome::InvalidProof;
        }
        if !(block.transactions_ok() && block_inputs_available(&self.chain, &block)) {
            return AppendOutcome::InvalidTransaction;
        }
        self.chain.push(block);
        AppendOutcome::Accepted
    }
}


/// In a valid chain, replacing the previous hash of any block after genesis
/// with a different value makes the chain invalid.
pub proof fn lemma_tampered_link_invalid(c: Seq<Block>, k: int, h: Vec<u8>)
    requires
        chain_valid(c),
        1 <= k < c.len(),
        h@ != c[k].prev_hash@,
    ensures
        !chain_valid(c.update(k, Block { prev_hash: h, ..c[k] })),
{
    let d = c.update(k, Block { prev_hash: h, ..c[k] });
    assert(block_valid(c[k], c[k - 1]));
    assert(!block_valid(d[k], d[k - 1]));
}

/// In a valid chain, a block is not a valid successor of the block two
/// places before it, nor of the block after it.
pub proof fn lemma_links_are_ordered(c: Seq<Block>, k: int)
    requires
        chain_valid(c),
        0 <= k,
        k + 1 < c.len(),
    ensures
        !block_valid(c[k], c[k + 1]),
        k + 2 < c.len() ==> !block_valid(c[k + 2], c[k]),
{
    let i = k + 1;
    assert(block_valid(c[i], c[i - 1]));
    if k + 2 < c.len() {
        let j = k + 2;
        assert(block_valid(c[j], c[j - 1]));
    }
}

/// Appending a block that `try_append` accepts keeps a valid chain valid.
pub proof fn lemma_accepted_keeps_chain_valid(c: Seq<Block>, b: Block)
    requires
        c.len() > 0,
        chain_valid(c),
        append_outcome(c, b) == AppendOutcome::Accepted,
    ensures
        block_valid(b, c.last()),
        chain_valid(c.push(b)),
{
    let d = c.push(b);
    assert forall|i: int| 1 <= i < d.len() implies #[trigger] block_valid(d[i], d[i - 1]) by {
        if i < c.len() {
            assert(d[i] == c[i] && d[i - 1] == c[i - 1]);
        } else {
            assert(d[i - 1] == c.last());
        }
    }
}

} // verus!
