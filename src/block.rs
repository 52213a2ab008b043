//! Blocks: timestamped, proof-of-work stamped containers of transactions,
//! each chained to its predecessor by the predecessor's hash.

use vstd::prelude::*;
use crate::crypto::{blake3_of, blake3_digest, DIGEST_LEN};
use crate::encoding::{
    u64_bytes, field_bytes, push_u64, push_field, bytes_eq, read_u64, read_field,
    lemma_subrange_split, concat_bytes, lemma_concat_prefix, lemma_concat_len, lemma_subrange_parts,
    lemma_u64_bytes_injective, prefix_free,
    lemma_u64_prefix, lemma_field_prefix, lemma_concat_prefix_free,
};
use vstd::std_specs::vec::axiom_spec_len;
use vstd::bytes::lemma_auto_spec_u64_to_from_le_bytes;
use crate::transaction::{
    OutputRef, Transaction, transaction_bytes, push_transaction, is_valid_transfer,
    is_valid_coinbase, read_transaction, lemma_transaction_prefix,
};

verus! {

pub const PROTOCOL_VERSION: u32 = 1;

/// The proof-of-work target of the genesis block, kept by every later block.
/// A hash meets a target when its leading eight bytes, read big-endian, fall
/// below it; this one asks for one leading zero byte.
pub const GENESIS_TARGET: u64 = 0x0100_0000_0000_0000;

#[derive(Clone, Debug)]
pub struct Block {
    pub id: u64,
    pub version: u32,
    pub timestamp: u64,
    pub prev_hash: Vec<u8>,
    pub transactions: Vec<Transaction>,
    pub target: u64,
    pub minter: u64,
}

pub open spec fn transaction_encoder() -> spec_fn(Transaction) -> Seq<u8> {
    |t: Transaction| transaction_bytes(t)
}

pub open spec fn transactions_bytes(s: Seq<Transaction>) -> Seq<u8> {
    concat_bytes(s, transaction_encoder())
}

/// The canonical byte representation of a block, which its hash covers.
pub open spec fn block_bytes(b: Block) -> Seq<u8> {
    u64_bytes(b.id) + u64_bytes(b.version as u64) + u64_bytes(b.timestamp)
        + field_bytes(b.prev_hash@) + u64_bytes(b.target) + u64_bytes(b.minter)
        + u64_bytes(b.transactions@.len() as u64) + transactions_bytes(b.transactions@)
}

pub open spec fn block_hash(b: Block) -> Seq<u8> {
    blake3_of(block_bytes(b))
}

/// A byte string read as a big-endian number.
pub open spec fn be_value(s: Seq<u8>) -> nat
    decreases s.len(),
{
    if s.len() == 0 {
        0
    } else {
        be_value(s.drop_last()) * 256 + s.last() as nat
    }
}

/// The proof-of-work predicate: the hash's leading eight bytes, read
/// big-endian, fall below the target (a higher target is easier).
pub open spec fn meets_target(hash: Seq<u8>, target: u64) -> bool {
    hash.len() >= 8 && be_value(hash.take(8)) < target
}

pub open spec fn with_timestamp(b: Block, t: u64) -> Block {
    Block { timestamp: t, ..b }
}

/// The output references that a sequence of inputs spends, in order.
pub open spec fn sources_of(ins: Seq<crate::transaction::Input>) -> Seq<OutputRef> {
    ins.map_values(|i: crate::transaction::Input| i.source)
}

/// Every output reference spent in the transactions, in order.
pub open spec fn all_sources(s: Seq<Transaction>) -> Seq<OutputRef>
    decreases s.len(),
{
    if s.len() == 0 {
        Seq::empty()
    } else {
        all_sources(s.drop_last()) + sources_of(s.last().inputs@)
    }
}

/// Transaction `i` of a block is valid: the first may be a coinbase, every
/// other one must be a valid transfer.
pub open spec fn transaction_valid_at(s: Seq<Transaction>, i: int) -> bool {
    (i == 0 && is_valid_coinbase(s[i])) || is_valid_transfer(s[i])
}

pub open spec fn transactions_valid(s: Seq<Transaction>) -> bool {
    forall|i: int| 0 <= i < s.len() ==> #[trigger] transaction_valid_at(s, i)
}

/// No output is spent twice within the transactions.
pub open spec fn no_double_spend(s: Seq<Transaction>) -> bool {
    all_sources(s).no_duplicates()
}

/// `b` is a valid successor of `prev`.
pub open spec fn block_valid(b: Block, prev: Block) -> bool {
    &&& prev.id < u64::MAX
    &&& b.id == prev.id + 1
    &&& b.prev_hash@ == block_hash(prev)
    &&& b.target == prev.target
    &&& meets_target(block_hash(b), b.target)
    &&& transactions_valid(b.transactions@)
    &&& no_double_spend(b.transactions@)
}

/// `b` is the fixed genesis block: id 0, version 0, timestamp 0, an
/// all-zero previous hash, no transactions, the genesis target, minter 0.
pub open spec fn is_genesis(b: Block) -> bool {
    &&& b.id == 0
    &&& b.version == 0
    &&& b.timestamp == 0
    &&& b.prev_hash@ == Seq::new(DIGEST_LEN as nat, |i: int| 0u8)
    &&& b.transactions@.len() == 0
    &&& b.target == GENESIS_TARGET
    &&& b.minter == 0
}

/// `b` is a candidate successor of `tip` holding `txs`, at any timestamp.
pub open spec fn is_candidate(b: Block, txs: Seq<Transaction>, tip: Block) -> bool {
    &&& tip.id < u64::MAX
    &&& b.id == tip.id + 1
    &&& b.version == PROTOCOL_VERSION
    &&& b.prev_hash@ == block_hash(tip)
    &&& b.transactions@ == txs
    &&& b.target == tip.target
    &&& b.minter == 0
}

pub open spec fn pow256(n: nat) -> nat
    decreases n,
{
    if n == 0 {
        1
    } else {
        pow256((n - 1) as nat) * 256
    }
}

proof fn lemma_be_value_bound(s: Seq<u8>)
    ensures
        be_value(s) < pow256(s.len()),
    decreases s.len(),
{
    if s.len() > 0 {
        let p = pow256((s.len() - 1) as nat);
        let v = be_value(s.drop_last());
        lemma_be_value_bound(s.drop_last());
        let x = s.last() as nat;
        assert(v * 256 + x < p * 256) by (nonlinear_arith)
            requires v < p, x < 256;
    }
}

proof fn lemma_pow256_small()
    ensures
        pow256(7) == 0x0100_0000_0000_0000,
        forall|i: nat| i <= 7 ==> #[trigger] pow256(i) <= pow256(7),
{
    assert(pow256(0) == 1);
    assert(pow256(1) == 0x100);
    assert(pow256(2) == 0x1_0000);
    assert(pow256(3) == 0x100_0000);
    assert(pow256(4) == 0x1_0000_0000);
    assert(pow256(5) == 0x100_0000_0000);
    assert(pow256(6) == 0x1_0000_0000_0000);
    assert(pow256(7) == 0x100_0000_0000_0000);
}

/// The hash's leading eight bytes read big-endian.
pub fn leading_value(hash: &Vec<u8>) -> (r: u64)
    requires
        hash@.len() >= 8,
    ensures
        r == be_value(hash@.take(8)),
{
    let mut acc: u64 = 0;
    let mut i: usize = 0;
    proof { lemma_pow256_small(); }
    assert(hash@.take(0) =~= Seq::<u8>::empty());
    while i < 8
        invariant
            i <= 8,
            hash@.len() >= 8,
            acc == be_value(hash@.take(i as int)),
            forall|i: nat| i <= 7 ==> #[trigger] pow256(i) <= pow256(7),
            pow256(7) == 0x0100_0000_0000_0000,
        decreases 8 - i,
    {
        proof { lemma_be_value_bound(hash@.take(i as int)); }
        assert(hash@.take(i + 1).drop_last() =~= hash@.take(i as int));
        let b = hash[i];
        assert(acc < 0x0100_0000_0000_0000);
        assert(acc * 256 + (b as int) < 0x1_0000_0000_0000_0000) by (nonlinear_arith)
            requires acc < 0x0100_0000_0000_0000, b < 256;
        acc = acc * 256 + b as u64;
        i = i + 1;
    }
    acc
}

/// Whether a hash meets a proof-of-work target.
pub fn satisfies_target(hash: &Vec<u8>, target: u64) -> (r: bool)
    ensures
        r == meets_target(hash@, target),
{
    hash.len() >= 8 && leading_value(hash) < target
}

fn push_transactions(buf: &mut Vec<u8>, txs: &Vec<Transaction>)
    ensures
        final(buf)@ == old(buf)@ + transactions_bytes(txs@),
{
    let ghost start = buf@;
    let mut i: usize = 0;
    assert(txs@.take(0) =~= Seq::<Transaction>::empty());
    while i < txs.len()
        invariant
            i <= txs@.len(),
            buf@ == start + transactions_bytes(txs@.take(i as int)),
        decreases txs@.len() - i,
    {
        push_transaction(buf, &txs[i]);
        assert(txs@.take(i + 1).drop_last() =~= txs@.take(i as int));
        i = i + 1;
        assert(buf@ =~= start + transactions_bytes(txs@.take(i as int)));
    }
    assert(txs@.take(txs@.len() as int) =~= txs@);
}

fn zero_digest() -> (r: Vec<u8>)
    ensures
        r@ == Seq::new(DIGEST_LEN as nat, |i: int| 0u8),
{
    let mut v: Vec<u8> = Vec::new();
    let mut i: usize = 0;
    while i < DIGEST_LEN
        invariant
            i <= DIGEST_LEN,
            v@ == Seq::new(i as nat, |j: int| 0u8),
        decreases DIGEST_LEN - i,
    {
        v.push(0);
        i = i + 1;
        assert(v@ =~= Seq::new(i as nat, |j: int| 0u8));
    }
    v
}

/// Collects every output reference spent in the transactions, in order.
pub(crate) fn collect_sources(txs: &Vec<Transaction>) -> (r: Vec<OutputRef>)
    ensures
        r@ == all_sources(txs@),
{
    let mut refs: Vec<OutputRef> = Vec::new();
    let mut i: usize = 0;
    assert(txs@.take(0) =~= Seq::<Transaction>::empty());
    while i < txs.len()
        invariant
            i <= txs@.len(),
            refs@ == all_sources(txs@.take(i as int)),
        decreases txs@.len() - i,
    {
        let ins = &txs[i].inputs;
        let ghost before = refs@;
        let mut k: usize = 0;
        assert(sources_of(ins@.take(0)) =~= Seq::<OutputRef>::empty());
        while k < ins.len()
            invariant
                k <= ins@.len(),
                ins@ == txs@[i as int].inputs@,
                refs@ == before + sources_of(ins@.take(k as int)),
            decreases ins@.len() - k,
        {
            refs.push(ins[k].source);
            k = k + 1;
            assert(sources_of(ins@.take(k as int)) =~= sources_of(ins@.take(k - 1)) + seq![
                ins@[k - 1].source,
            ]);
            assert(refs@ =~= before + sources_of(ins@.take(k as int)));
        }
        assert(ins@.take(ins@.len() as int) =~= ins@);
        assert(txs@.take(i + 1).drop_last() =~= txs@.take(i as int));
        i = i + 1;
    }
    assert(txs@.take(txs@.len() as int) =~= txs@);
    refs
}

/// Whether no two entries are equal.
fn all_distinct(refs: &Vec<OutputRef>) -> (r: bool)
    ensures
        r == refs@.no_duplicates(),
{
    let mut i: usize = 0;
    while i < refs.len()
        invariant
            i <= refs@.len(),
            forall|a: int, b: int| 0 <= a < b < i ==> refs@[a] != refs@[b],
        decreases refs@.len() - i,
    {
        let mut j: usize = 0;
        while j < i
            invariant
                j <= i < refs@.len(),
                forall|a: int, b: int| 0 <= a < b < i ==> refs@[a] != refs@[b],
                forall|a: int| 0 <= a < j ==> refs@[a] != refs@[i as int],
            decreases i - j,
        {
            if refs[j] == refs[i] {
                return false;
            }
            j = j + 1;
        }
        i = i + 1;
    }
    true
}

impl Block {
    /// The fixed genesis block: id 0, no transactions, an all-zero previous
    /// hash, the genesis target.
    pub fn genesis() -> (r: Self)
        ensures
            is_genesis(r),
    {
        Block {
            id: 0,
            version: 0,
            timestamp: 0,
            prev_hash: zero_digest(),
            transactions: Vec::new(),
            target: GENESIS_TARGET,
            minter: 0,
        }
    }

    /// An unsolved candidate that follows this block; the target is kept.
    pub fn next(&self) -> (r: Self)
        requires
            self.id < u64::MAX,
        ensures
            r.id == self.id + 1,
            r.version == PROTOCOL_VERSION,
            r.timestamp == 0,
            r.prev_hash@ == block_hash(*self),
            r.transactions@.len() == 0,
            r.target == self.target,
            r.minter == 0,
    {
        Block {
            id: self.id + 1,
            version: PROTOCOL_VERSION,
            timestamp: 0,
            prev_hash: self.hash(),
            transactions: Vec::new(),
            target: self.target,
            minter: 0,
        }
    }

    /// The canonical byte representation.
    pub fn as_bytes(&self) -> (r: Vec<u8>)
        ensures
            r@ == block_bytes(*self),
    {
        let mut buf: Vec<u8> = Vec::new();
        push_u64(&mut buf, self.id);
        push_u64(&mut buf, self.version as u64);
        push_u64(&mut buf, self.timestamp);
        push_field(&mut buf, &self.prev_hash);
        push_u64(&mut buf, self.target);
        push_u64(&mut buf, self.minter);
        push_u64(&mut buf, self.transactions.len() as u64);
        push_transactions(&mut buf, &self.transactions);
        assert(buf@ =~= block_bytes(*self));
        buf
    }

    pub fn hash(&self) -> (r: Vec<u8>)
        ensures
            r@ == block_hash(*self),
            r@.len() == DIGEST_LEN,
    {
        blake3_digest(&self.as_bytes())
    }

    /// Whether the block's own hash meets its declared target.
    pub fn has_valid_proof(&self) -> (r: bool)
        ensures
            r == meets_target(block_hash(*self), self.target),
    {
        satisfies_target(&self.hash(), self.target)
    }

    /// Whether every transaction is valid and no output is spent twice.
    pub fn transactions_ok(&self) -> (r: bool)
        ensures
            r == (transactions_valid(self.transactions@) && no_double_spend(
                self.transactions@,
            )),
    {
        let mut i: usize = 0;
        while i < self.transactions.len()
            invariant
                i <= self.transactions@.len(),
                forall|j: int| 0 <= j < i ==> #[trigger] transaction_valid_at(self.transactions@, j),
            decreases self.transactions@.len() - i,
        {
            let tx = &self.transactions[i];
            let ok = (i == 0 && tx.validate_coinbase()) || tx.validate();
            if !ok {
                assert(!transaction_valid_at(self.transactions@, i as int));
                return false;
            }
            i = i + 1;
        }
        all_distinct(&collect_sources(&self.transactions))
    }

    /// Whether this block is a valid successor of `prev`: contiguous id,
    /// linked hash, unchanged target, proof of work, valid transactions and
    /// no output spent twice.
    pub fn validate(&self, prev: &Block) -> (r: bool)
        ensures
            r == block_valid(*self, *prev),
    {
        if !(prev.id < u64::MAX && self.id == prev.id + 1) {
            return false;
        }
        if !bytes_eq(&self.prev_hash, &prev.hash()) {
            return false;
        }
        self.target == prev.target && self.has_valid_proof() && self.transactions_ok()
    }

    /// Searches `attempts` consecutive timestamps, starting at the current
    /// one, for a hash that meets the target. On success the block holds the
    /// winning timestamp; otherwise it holds the next timestamp to try.
    pub fn mine(&mut self, attempts: u64) -> (found: bool)
        requires
            old(self).timestamp + attempts <= u64::MAX,
        ensures
            found ==> *final(self) == with_timestamp(*old(self), final(self).timestamp),
            found ==> old(self).timestamp <= final(self).timestamp < old(self).timestamp
                + attempts,
            found ==> meets_target(block_hash(*final(self)), final(self).target),
            !found ==> *final(self) == with_timestamp(*old(self), (old(self).timestamp
                + attempts) as u64),
            forall|t: u64|
                old(self).timestamp <= t < final(self).timestamp ==> !meets_target(
                    #[trigger] block_hash(with_timestamp(*old(self), t)),
                    old(self).target,
                ),
    {
        let end: u64 = self.timestamp + attempts;
        let ghost start = *self;
        while self.timestamp < end
            invariant
                start == *old(self),
                start.timestamp <= self.timestamp <= end,
                end == start.timestamp + attempts,
                *self == with_timestamp(start, self.timestamp),
                forall|t: u64|
                    start.timestamp <= t < self.timestamp ==> !meets_target(
                        #[trigger] block_hash(with_timestamp(start, t)),
                        start.target,
                    ),
            decreases end - self.timestamp,
        {
            if self.has_valid_proof() {
                return true;
            }
            self.timestamp = self.timestamp + 1;
        }
        false
    }

    /// Assembles the transactions into a candidate on top of `tip` and mines
    /// it over every timestamp below `u64::MAX`.
    pub fn mint(transactions: Vec<Transaction>, tip: &Block) -> (r: Option<Block>)
        requires
            tip.id < u64::MAX,
        ensures
            r.is_some() ==> is_candidate(r.unwrap(), transactions@, *tip),
            r.is_some() ==> meets_target(block_hash(r.unwrap()), tip.target),
            r.is_none() ==> forall|b: Block|
                is_candidate(b, transactions@, *tip) && b.timestamp < u64::MAX ==> !meets_target(
                    #[trigger] block_hash(b),
                    tip.target,
                ),
    {
        let mut candidate = tip.next();
        candidate.transactions = transactions;
        let ghost before = candidate;
        if candidate.mine(u64::MAX) {
            Some(candidate)
        } else {
            assert forall|b: Block|
                is_candidate(b, transactions@, *tip) && b.timestamp < u64::MAX implies !meets_target(
                    #[trigger] block_hash(b),
                    tip.target,
                ) by {
                assert(block_bytes(b) == block_bytes(with_timestamp(before, b.timestamp)));
                assert(block_hash(b) == block_hash(with_timestamp(before, b.timestamp)));
            }
            None
        }
    }
}


/// A block is never a valid successor of itself.
pub proof fn lemma_no_self_link(b: Block)
    ensures
        !block_valid(b, b),
{
}

proof fn lemma_sources_prefix(s: Seq<Transaction>, i: int, j: int)
    requires
        0 <= i <= j <= s.len(),
    ensures
        all_sources(s.take(i)).len() <= all_sources(s.take(j)).len(),
        all_sources(s.take(j)).take(all_sources(s.take(i)).len() as int) == all_sources(s.take(i)),
    decreases j - i,
{
    if i == j {
        assert(all_sources(s.take(j)).take(all_sources(s.take(i)).len() as int) =~= all_sources(
            s.take(i),
        ));
    } else {
        lemma_sources_prefix(s, i, j - 1);
        assert(s.take(j).drop_last() =~= s.take(j - 1));
        assert(all_sources(s.take(j)).take(all_sources(s.take(i)).len() as int) =~= all_sources(
            s.take(i),
        ));
    }
}

proof fn lemma_source_position(s: Seq<Transaction>, i: int, k: int)
    requires
        0 <= i < s.len(),
        0 <= k < s[i].inputs@.len(),
    ensures
        all_sources(s.take(i)).len() + k < all_sources(s.take(i + 1)).len(),
        all_sources(s.take(i + 1)).len() <= all_sources(s).len(),
        all_sources(s)[all_sources(s.take(i)).len() + k] == s[i].inputs@[k].source,
{
    assert(s.take(i + 1).drop_last() =~= s.take(i));
    lemma_sources_prefix(s, i + 1, s.len() as int);
    assert(s.take(s.len() as int) =~= s);
    let p = all_sources(s.take(i)).len() + k;
    assert(all_sources(s.take(i + 1))[p] == s[i].inputs@[k].source);
    assert(all_sources(s).take(all_sources(s.take(i + 1)).len() as int)[p] == all_sources(s)[p]);
}

/// Two transactions of one block that spend the same output make the block
/// invalid, whatever its predecessor.
pub proof fn lemma_double_spend_invalid(b: Block, prev: Block, i: int, j: int, ki: int, kj: int)
    requires
        0 <= i < j < b.transactions@.len(),
        0 <= ki < b.transactions@[i].inputs@.len(),
        0 <= kj < b.transactions@[j].inputs@.len(),
        b.transactions@[i].inputs@[ki].source == b.transactions@[j].inputs@[kj].source,
    ensures
        !block_valid(b, prev),
{
    let s = b.transactions@;
    lemma_source_position(s, i, ki);
    lemma_source_position(s, j, kj);
    lemma_sources_prefix(s, i + 1, j);
    let p = all_sources(s.take(i)).len() + ki;
    let q = all_sources(s.take(j)).len() + kj;
    assert(p < q);
    assert(all_sources(s)[p] == all_sources(s)[q]);
}

proof fn lemma_transactions_prefix_free()
    ensures
        prefix_free(transaction_encoder()),
{
    assert forall|x: Transaction, y: Transaction, r1: Seq<u8>, r2: Seq<u8>|
        #[trigger] (transaction_encoder()(x) + r1) == #[trigger] (transaction_encoder()(y) + r2)
        implies transaction_encoder()(x) == transaction_encoder()(y) by {
        lemma_transaction_prefix(x, y, r1, r2);
    }
}

/// The bytes a block is hashed over determine every header field, the
/// number of transactions, and each transaction's encoding in order. So
/// changing any of them (adding, removing, reordering or altering a
/// transaction included) changes the bytes.
pub proof fn lemma_block_bytes_determine_block(a: Block, b: Block)
    requires
        block_bytes(a) == block_bytes(b),
    ensures
        a.id == b.id,
        a.version == b.version,
        a.timestamp == b.timestamp,
        a.prev_hash@ == b.prev_hash@,
        a.target == b.target,
        a.minter == b.minter,
        a.transactions@.len() == b.transactions@.len(),
        forall|i: int|
            0 <= i < a.transactions@.len() ==> transaction_bytes(#[trigger] a.transactions@[i])
                == transaction_bytes(b.transactions@[i]),
{
    axiom_spec_len(&a.prev_hash);
    axiom_spec_len(&b.prev_hash);
    axiom_spec_len(&a.transactions);
    axiom_spec_len(&b.transactions);
    lemma_transactions_prefix_free();
    let ta = u64_bytes(a.transactions@.len() as u64) + transactions_bytes(a.transactions@);
    let tb = u64_bytes(b.transactions@.len() as u64) + transactions_bytes(b.transactions@);
    let ma = u64_bytes(a.minter) + ta;
    let mb = u64_bytes(b.minter) + tb;
    let ga = u64_bytes(a.target) + ma;
    let gb = u64_bytes(b.target) + mb;
    let ha = field_bytes(a.prev_hash@) + ga;
    let hb = field_bytes(b.prev_hash@) + gb;
    let sa = u64_bytes(a.timestamp) + ha;
    let sb = u64_bytes(b.timestamp) + hb;
    let va = u64_bytes(a.version as u64) + sa;
    let vb = u64_bytes(b.version as u64) + sb;
    assert(block_bytes(a) =~= u64_bytes(a.id) + va);
    assert(block_bytes(b) =~= u64_bytes(b.id) + vb);
    lemma_u64_prefix(a.id, b.id, va, vb);
    lemma_u64_prefix(a.version as u64, b.version as u64, sa, sb);
    lemma_u64_prefix(a.timestamp, b.timestamp, ha, hb);
    lemma_field_prefix(a.prev_hash@, b.prev_hash@, ga, gb);
    lemma_u64_prefix(a.target, b.target, ma, mb);
    lemma_u64_prefix(a.minter, b.minter, ta, tb);
    lemma_u64_prefix(a.transactions@.len() as u64, b.transactions@.len() as u64,
        transactions_bytes(a.transactions@), transactions_bytes(b.transactions@));
    assert(transactions_bytes(a.transactions@) + Seq::<u8>::empty() =~= transactions_bytes(b.transactions@) + Seq::<u8>::empty());
    lemma_concat_prefix_free(a.transactions@, b.transactions@, transaction_encoder(),
        Seq::<u8>::empty(), Seq::<u8>::empty());
    assert forall|i: int| 0 <= i < a.transactions@.len() implies transaction_bytes(
        #[trigger] a.transactions@[i],
    ) == transaction_bytes(b.transactions@[i]) by {
        assert(transaction_encoder()(a.transactions@[i]) == transaction_bytes(a.transactions@[i]));
        assert(transaction_encoder()(b.transactions@[i]) == transaction_bytes(b.transactions@[i]));
    }
}


/// Reads a count, then that many transactions.
fn read_transactions(buf: &Vec<u8>, pos: usize, Ghost(e): Ghost<Seq<Transaction>>) -> (r: Option<(Vec<Transaction>, usize)>)
    ensures
        r is Some ==> pos <= r.unwrap().1 <= buf@.len() && buf@.subrange(
            pos as int,
            r.unwrap().1 as int,
        ) == u64_bytes(r.unwrap().0@.len() as u64) + transactions_bytes(r.unwrap().0@),
        pos + 8 + transactions_bytes(e).len() <= buf@.len() && buf@.subrange(pos as int, pos + 8 + transactions_bytes(e).len())
            == u64_bytes(e.len() as u64) + transactions_bytes(e) ==> r is Some && r.unwrap().1 == pos + 8 + transactions_bytes(e).len(),
{
    let ghost matched = pos + 8 + transactions_bytes(e).len() <= buf@.len() && buf@.subrange(
        pos as int,
        pos + 8 + transactions_bytes(e).len(),
    ) == u64_bytes(e.len() as u64) + transactions_bytes(e);
    let total = buf.len();
    proof {
        lemma_auto_spec_u64_to_from_le_bytes();
        if matched {
            lemma_subrange_parts(buf@, pos as int, u64_bytes(e.len() as u64), transactions_bytes(e));
            assert forall|x: Transaction| #[trigger] transaction_encoder()(x).len() >= 8 by {
                lemma_auto_spec_u64_to_from_le_bytes();
            }
            lemma_concat_len(e, transaction_encoder());
        }
    }
    let (n, start) = match read_u64(buf, pos) { Some(v) => v, None => return None };
    proof {
        if matched {
            assert(e.len() <= total);
            lemma_u64_bytes_injective(n, e.len() as u64);
        }
    }
    let mut v: Vec<Transaction> = Vec::new();
    let mut cur = start;
    let mut i: u64 = 0;
    assert(buf@.subrange(start as int, start as int) =~= transactions_bytes(v@));
    assert(e.take(0) =~= Seq::<Transaction>::empty());
    while i < n
        invariant
            pos + 8 == start <= cur <= buf@.len(),
            v@.len() == i <= n,
            buf@.subrange(pos as int, start as int) == u64_bytes(n),
            buf@.subrange(start as int, cur as int) == transactions_bytes(v@),
            matched == (pos + 8 + transactions_bytes(e).len() <= buf@.len() && buf@.subrange(
                pos as int,
                pos + 8 + transactions_bytes(e).len(),
            ) == u64_bytes(e.len() as u64) + transactions_bytes(e)),
            matched ==> n == e.len(),
            matched ==> buf@.subrange(start as int, start + transactions_bytes(e).len()) == transactions_bytes(e),
            matched ==> start + transactions_bytes(e).len() <= buf@.len(),
            matched ==> cur == start + transactions_bytes(e.take(i as int)).len(),
        decreases n - i,
    {
        let ghost item = e[i as int];
        proof {
            if matched {
                lemma_concat_prefix(e, transaction_encoder(), i as int);
                let upto = transactions_bytes(e.take(i + 1));
                assert(buf@.subrange(start as int, start + upto.len()) =~= transactions_bytes(e).subrange(0, upto.len() as int));
                assert(transaction_encoder()(item) == transaction_bytes(item));
                assert(upto == transactions_bytes(e.take(i as int)) + transaction_bytes(item));
                assert(e.take(i as int).len() == i);
                assert(buf@.subrange(start as int, start + upto.len()) == upto);
                lemma_subrange_parts(buf@, start as int, transactions_bytes(e.take(i as int)), transaction_bytes(item));
                assert(cur + transaction_bytes(item).len() <= buf@.len());
                assert(buf@.subrange(cur as int, cur + transaction_bytes(item).len()) == transaction_bytes(item));
            }
        }
        let (t, next) = match read_transaction(buf, cur, Ghost(item)) { Some(x) => x, None => return None };
        proof { lemma_subrange_split(buf@, start as int, cur as int, next as int); }
        let ghost old_v = v@;
        v.push(t);
        assert(v@.drop_last() =~= old_v);
        cur = next;
        i = i + 1;
    }
    proof {
        lemma_subrange_split(buf@, pos as int, start as int, cur as int);
        if matched {
            assert(e.take(e.len() as int) =~= e);
        }
    }
    Some((v, cur))
}

impl Block {
    /// Reads a block that fills `bytes` exactly; the result encodes back to
    /// the same bytes.
    pub fn from_bytes(bytes: &Vec<u8>) -> (r: Option<Block>)
        ensures
            r is Some ==> block_bytes(r.unwrap()) == bytes@,
            r is Some <==> exists|b: Block| block_bytes(b) == bytes@,
    {
        let ghost e = choose|b: Block| block_bytes(b) == bytes@;
        let ghost matched = exists|b: Block| block_bytes(b) == bytes@;
        let ghost h = field_bytes(e.prev_hash@);
        let ghost t = u64_bytes(e.transactions@.len() as u64) + transactions_bytes(e.transactions@);
        proof {
            lemma_auto_spec_u64_to_from_le_bytes();
            if matched {
                let a = u64_bytes(e.id);
                let b = u64_bytes(e.version as u64);
                let c = u64_bytes(e.timestamp);
                let f = u64_bytes(e.target);
                let g = u64_bytes(e.minter);
                assert(bytes@ =~= a + b + c + h + f + g + t);
                assert(bytes@.subrange(0, bytes@.len() as int) =~= bytes@);
                lemma_subrange_parts(bytes@, 0, a + b + c + h + f + g, t);
                lemma_subrange_parts(bytes@, 0, a + b + c + h + f, g);
                lemma_subrange_parts(bytes@, 0, a + b + c + h, f);
                lemma_subrange_parts(bytes@, 0, a + b + c, h);
                lemma_subrange_parts(bytes@, 0, a + b, c);
                lemma_subrange_parts(bytes@, 0, a, b);
            }
        }
        let (id, p1) = match read_u64(bytes, 0) { Some(v) => v, None => return None };
        let (version, p2) = match read_u64(bytes, p1) { Some(v) => v, None => return None };
        proof {
            if matched {
                lemma_u64_bytes_injective(version, e.version as u64);
            }
        }
        if version > u32::MAX as u64 {
            return None;
        }
        let (timestamp, p3) = match read_u64(bytes, p2) { Some(v) => v, None => return None };
        let (prev_hash, p4) = match read_field(bytes, p3, Ghost(e.prev_hash@)) {
            Some(v) => v,
            None => return None,
        };
        let (target, p5) = match read_u64(bytes, p4) { Some(v) => v, None => return None };
        let (minter, p6) = match read_u64(bytes, p5) { Some(v) => v, None => return None };
        let (transactions, p7) = match read_transactions(bytes, p6, Ghost(e.transactions@)) {
            Some(v) => v,
            None => return None,
        };
        if p7 != bytes.len() {
            return None;
        }
        proof {
            lemma_subrange_split(bytes@, 0, p1 as int, p2 as int);
            lemma_subrange_split(bytes@, 0, p2 as int, p3 as int);
            lemma_subrange_split(bytes@, 0, p3 as int, p4 as int);
            lemma_subrange_split(bytes@, 0, p4 as int, p5 as int);
            lemma_subrange_split(bytes@, 0, p5 as int, p6 as int);
            lemma_subrange_split(bytes@, 0, p6 as int, p7 as int);
            assert(bytes@.subrange(0, bytes@.len() as int) =~= bytes@);
        }
        let b = Block {
            id,
            version: version as u32,
            timestamp,
            prev_hash,
            transactions,
            target,
            minter,
        };
        assert(bytes@ =~= block_bytes(b));
        Some(b)
    }
}

} // verus!
