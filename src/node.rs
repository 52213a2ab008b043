//! The node: one chain, one wallet, the pool of pending transactions, and
//! blocks that arrived ahead of the chain. The peer set is kept apart, behind
//! a guard of its own, by whoever runs the network.

use vstd::prelude::*;
use crate::block::{
    Block, is_candidate, is_genesis, all_sources, block_hash, meets_target, collect_sources,
};
use crate::blockchain::{
    AppendOutcome, Blockchain, append_outcome, chain_valid, lemma_accepted_keeps_chain_valid,
    contains_ref,
};
use crate::crypto::ed25519_signature_of;
use crate::encoding::copy_bytes;
use crate::transaction::{
    Input, Output, OutputRef, Transaction, is_valid_transfer, signing_message,
    signing_message_bytes,
};
use crate::wallet::Wallet;

verus! {

pub struct Node {
    /// This node's local view of the blockchain.
    pub blockchain: Blockchain,
    pub wallet: Wallet,
    /// Blocks that cannot be added yet because they arrived ahead of the tip.
    pub blocks: Vec<Block>,
    /// Valid transactions waiting to be minted.
    pub validator: Validator,
}

/// The most blocks kept aside while they wait for the chain to reach them.
pub const MAX_KEPT_BLOCKS: usize = 64;

/// Whether `tx` spends an output that a pooled transaction already spends.
pub open spec fn conflicts_with_pool(pool: Seq<Transaction>, tx: Transaction) -> bool {
    exists|k: int|
        0 <= k < tx.inputs@.len() && all_sources(pool).contains(#[trigger] tx.inputs@[k].source)
}

/// `b` is kept aside when it arrives: it leaves a gap after the tip, there is
/// room, and its hash meets its own target.
pub open spec fn keeps_block(tip: Block, kept: nat, b: Block) -> bool {
    &&& b.id > tip.id + 1
    &&& kept < MAX_KEPT_BLOCKS
    &&& meets_target(block_hash(b), b.target)
}

/// The pool of valid transactions that the next minted block will hold.
pub struct Validator {
    pub transactions: Vec<Transaction>,
}

/// The outputs of a payment of `amount` to `receiver` out of `spent`: the
/// payment, then the change back to the spent output's recipient, if any.
pub open spec fn payment_outputs_ok(outs: Seq<Output>, spent: Output, amount: u64, receiver: Seq<u8>) -> bool {
    &&& outs.len() == if amount < spent.amount { 2int } else { 1int }
    &&& outs[0].recipient@ == receiver
    &&& outs[0].amount == amount
    &&& amount < spent.amount ==> outs[1].recipient@ == spent.recipient@ && outs[1].amount
        == spent.amount - amount
}

impl Node {
    pub open spec fn wf(&self) -> bool {
        &&& self.blockchain.chain@.len() > 0
        &&& self.wallet.wf()
        &&& self.blocks@.len() <= MAX_KEPT_BLOCKS
    }

    /// A node with the genesis chain, a fresh wallet, and nothing else.
    pub fn new() -> (r: Self)
        ensures
            r.wf(),
            r.blockchain.chain@.len() == 1,
            is_genesis(r.blockchain.chain@[0]),
            r.blockchain.last_cp is None,
            r.blocks@.len() == 0,
            r.validator.transactions@.len() == 0,
            r.wallet.public_keys().len() == 1,
            r.wallet.spec_funds() == seq![0u64],
            r.wallet.spec_coins().len() == 0,
    {
        Node {
            blockchain: Blockchain::new(),
            wallet: Wallet::new(),
            blocks: Vec::new(),
            validator: Validator { transactions: Vec::new() },
        }
    }

    /// Offers a block to the chain. One that arrived ahead of the tip (its id
    /// leaves a gap) is kept aside for later if there is room and its proof of
    /// work holds; otherwise it is dropped.
    pub fn receive_block(&mut self, block: Block) -> (r: AppendOutcome)
        requires
            old(self).wf(),
        ensures
            final(self).wf(),
            r == append_outcome(old(self).blockchain.chain@, block),
            r == AppendOutcome::Accepted ==> final(self).blockchain.chain@ == old(
                self,
            ).blockchain.chain@.push(block),
            r != AppendOutcome::Accepted ==> final(self).blockchain.chain@ == old(
                self,
            ).blockchain.chain@,
            keeps_block(old(self).blockchain.chain@.last(), old(self).blocks@.len(), block)
                ==> final(self).blocks@ == old(self).blocks@.push(block),
            !keeps_block(old(self).blockchain.chain@.last(), old(self).blocks@.len(), block)
                ==> final(self).blocks@ == old(self).blocks@,
            final(self).validator.transactions@ == old(self).validator.transactions@,
    {
        let n = self.blockchain.chain.len();
        let tip_id = self.blockchain.chain[n - 1].id;
        let ahead = block.id > tip_id && block.id - tip_id > 1;
        if ahead {
            if self.blocks.len() < MAX_KEPT_BLOCKS && block.has_valid_proof() {
                self.blocks.push(block);
            }
            AppendOutcome::NonContiguous
        } else {
            self.blockchain.try_append(block)
        }
    }

    /// Offers the kept blocks that follow the tip to the chain, one after
    /// another, until none follows it. Each block offered leaves the kept
    /// ones, accepted or not. Returns how many were appended.
    pub fn attach_kept_blocks(&mut self) -> (n: usize)
        requires
            old(self).wf(),
        ensures
            final(self).wf(),
            final(self).blockchain.chain@.len() == old(self).blockchain.chain@.len() + n,
            final(self).blockchain.chain@.take(old(self).blockchain.chain@.len() as int) == old(
                self,
            ).blockchain.chain@,
            chain_valid(old(self).blockchain.chain@) ==> chain_valid(final(self).blockchain.chain@),
            final(self).blocks@.len() <= old(self).blocks@.len(),
            forall|j: int|
                0 <= j < final(self).blocks@.len() ==> !(final(self).blockchain.chain@.last().id
                    < u64::MAX && #[trigger] final(self).blocks@[j].id
                    == final(self).blockchain.chain@.last().id + 1),
            final(self).validator.transactions@ == old(self).validator.transactions@,
    {
        let mut n: usize = 0;
        let kept = self.blocks.len();
        let ghost start = self.blockchain.chain@;
        loop
            invariant
                self.wf(),
                self.blockchain.chain@.len() == start.len() + n,
                self.blockchain.chain@.take(start.len() as int) == start,
                chain_valid(start) ==> chain_valid(self.blockchain.chain@),
                self.blocks@.len() + n <= kept,
                kept == old(self).blocks@.len(),
                start == old(self).blockchain.chain@,
                self.validator.transactions@ == old(self).validator.transactions@,
            decreases self.blocks@.len(),
        {
            let len = self.blockchain.chain.len();
            let tip_id = self.blockchain.chain[len - 1].id;
            let mut i: usize = 0;
            let mut found = false;
            while i < self.blocks.len()
                invariant_except_break
                    !found,
                invariant
                    i <= self.blocks@.len(),
                    self.blockchain.chain@.len() > 0,
                    tip_id == self.blockchain.chain@.last().id,
                    forall|j: int|
                        0 <= j < i ==> !(tip_id < u64::MAX && #[trigger] self.blocks@[j].id
                            == tip_id + 1),
                ensures
                    found ==> i < self.blocks@.len(),
                    !found ==> i == self.blocks@.len(),
                decreases self.blocks@.len() - i,
            {
                if tip_id < u64::MAX && self.blocks[i].id == tip_id + 1 {
                    found = true;
                    break;
                }
                i = i + 1;
            }
            if !found {
                return n;
            }
            let block = self.blocks.remove(i);
            let ghost before = self.blockchain.chain@;
            let outcome = self.blockchain.try_append(block);
            if outcome == AppendOutcome::Accepted {
                proof {
                    if chain_valid(start) {
                        lemma_accepted_keeps_chain_valid(before, block);
                    }
                    assert(self.blockchain.chain@.take(start.len() as int) =~= before.take(
                        start.len() as int,
                    ));
                }
                n = n + 1;
            }
        }
    }

    /// Adds a valid transfer to the pending pool unless a pooled transaction
    /// already spends one of its inputs; returns whether it was added.
    pub fn receive_transaction(&mut self, tx: Transaction) -> (added: bool)
        requires
            old(self).wf(),
        ensures
            final(self).wf(),
            added == (is_valid_transfer(tx) && !conflicts_with_pool(
                old(self).validator.transactions@,
                tx,
            )),
            added ==> final(self).validator.transactions@ == old(self).validator.transactions@.push(tx),
            !added ==> final(self).validator.transactions@ == old(self).validator.transactions@,
            final(self).blockchain == old(self).blockchain,
    {
        if !tx.validate() {
            return false;
        }
        let pooled = collect_sources(&self.validator.transactions);
        let mut k: usize = 0;
        while k < tx.inputs.len()
            invariant
                k <= tx.inputs@.len(),
                self.wf(),
                pooled@ == all_sources(self.validator.transactions@),
                forall|j: int| 0 <= j < k ==> !pooled@.contains(#[trigger] tx.inputs@[j].source),
            decreases tx.inputs@.len() - k,
        {
            if contains_ref(&pooled, tx.inputs[k].source) {
                return false;
            }
            k = k + 1;
        }
        self.validator.transactions.push(tx);
        true
    }

    /// Moves the pending pool into an unsolved candidate on top of the tip.
    pub fn start_candidate(&mut self) -> (r: Block)
        requires
            old(self).wf(),
            old(self).blockchain.chain@.last().id < u64::MAX,
        ensures
            final(self).wf(),
            is_candidate(r, old(self).validator.transactions@, old(self).blockchain.chain@.last()),
            r.timestamp == 0,
            final(self).validator.transactions@.len() == 0,
            final(self).blockchain == old(self).blockchain,
    {
        let n = self.blockchain.chain.len();
        let mut candidate = self.blockchain.chain[n - 1].next();
        let mut txs: Vec<Transaction> = Vec::new();
        std::mem::swap(&mut self.validator.transactions, &mut txs);
        candidate.transactions = txs;
        candidate
    }

    /// Pays `amount` to `receiver` out of the output `spent`, named by
    /// `source`, with the change returned to the spent output's recipient.
    /// None when the amount is zero or exceeds the output, or when the wallet
    /// does not hold the recipient's key.
    pub fn perform_transaction(
        &self,
        id: u64,
        source: OutputRef,
        spent: &Output,
        amount: u64,
        receiver: &Vec<u8>,
    ) -> (r: Option<Transaction>)
        requires
            self.wf(),
        ensures
            r is Some <==> (0 < amount <= spent.amount && self.wallet.public_keys().contains(
                spent.recipient@,
            )),
            r is Some ==> {
                let t = r.unwrap();
                &&& t.id == id
                &&& t.inputs@.len() == 1
                &&& t.inputs@[0].source == source
                &&& t.inputs@[0].spent.recipient@ == spent.recipient@
                &&& t.inputs@[0].spent.amount == spent.amount
                &&& payment_outputs_ok(t.outputs@, *spent, amount, receiver@)
                &&& exists|i: int|
                    0 <= i < self.wallet.public_keys().len() && self.wallet.public_keys()[i]
                        == spent.recipient@ && t.inputs@[0].signature@ == ed25519_signature_of(
                        #[trigger] self.wallet.secret_keys()[i],
                        signing_message(id, source, t.outputs@),
                    )
            },
    {
        if amount == 0 || amount > spent.amount {
            return None;
        }
        let mut outputs: Vec<Output> = Vec::new();
        outputs.push(Output { recipient: copy_bytes(receiver), amount });
        if amount < spent.amount {
            outputs.push(Output { recipient: copy_bytes(&spent.recipient), amount: spent.amount - amount });
        }
        let msg = signing_message_bytes(id, source, &outputs);
        match self.wallet.sign_input(&spent.recipient, &msg) {
            None => None,
            Some(signature) => {
                let input = Input {
                    source,
                    spent: Output { recipient: copy_bytes(&spent.recipient), amount: spent.amount },
                    signature,
                };
                let mut inputs: Vec<Input> = Vec::new();
                inputs.push(input);
                Some(Transaction::new(id, inputs, outputs))
            },
        }
    }
}

} // verus!
