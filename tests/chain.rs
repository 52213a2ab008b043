use powchain::block::{leading_value, satisfies_target, Block};
use powchain::blockchain::{AppendOutcome, Blockchain};
use powchain::network::PeerSet;
use powchain::node::{Node, MAX_KEPT_BLOCKS};
use powchain::transaction::{Output, OutputRef, Transaction};

fn coinbase(id: u64, recipient: &Vec<u8>, amount: u64) -> Transaction {
    Transaction::new(id, Vec::new(), vec![Output { recipient: recipient.clone(), amount }])
}

#[test]
fn validation() {
    let b1 = Block::genesis();
    let b2 = Block::mint(Vec::new(), &b1).unwrap();
    assert_eq!(b2.validate(&b1), true);
    let b3 = Block::mint(Vec::new(), &b2).unwrap();
    assert_eq!(b3.validate(&b2), true);
    let b4 = Block::mint(Vec::new(), &b3).unwrap();
    assert_eq!(b4.validate(&b3), true);

    // Order matters
    assert_eq!(b4.validate(&b2), false);
    assert_eq!(b3.validate(&b4), false);
    assert_eq!(b2.validate(&b2), false);
}

#[test]
fn hash() {
    let mut b = Block::genesis();
    let mut h = b.hash();

    // Hash depends on id
    b.id += 42;
    assert_ne!(b.hash(), h);
    h = b.hash();

    // Hash depends on version
    b.version += 1;
    assert_ne!(b.hash(), h);
    h = b.hash();

    // Hash depends on timestamp
    b.timestamp += 7;
    assert_ne!(b.hash(), h);
    h = b.hash();
    assert_eq!(h.len(), 32);
}

#[test]
fn new_blockchain() {
    let mut blockchain = Blockchain::new();

    for i in 0..3 {
        let b_new = Block::mint(Vec::new(), &blockchain.chain[i]).unwrap();
        blockchain.chain.push(b_new);
    }

    assert_eq!(blockchain.validate(), true);
}

#[test]
fn hash_depends_on_transactions() {
    let key = vec![7u8; 32];
    let mut b = Block::genesis();
    b.transactions.push(coinbase(1, &key, 10));
    let h = b.hash();
    b.transactions[0].outputs[0].amount = 11;
    assert_ne!(b.hash(), h);
    let h2 = b.hash();
    b.transactions[0].id = 2;
    assert_ne!(b.hash(), h2);
}

#[test]
fn genesis_is_fixed() {
    let g = Block::genesis();
    assert_eq!(g.id, 0);
    assert_eq!(g.prev_hash, vec![0u8; 32]);
    assert!(g.transactions.is_empty());
    assert_eq!(g.hash(), Block::genesis().hash());
    let n = g.next();
    assert_eq!(n.id, 1);
    assert_eq!(n.prev_hash, g.hash());
}

#[test]
fn tampered_link_breaks_chain() {
    let mut blockchain = Blockchain::new();
    for i in 0..3 {
        let b_new = Block::mint(Vec::new(), &blockchain.chain[i]).unwrap();
        blockchain.chain.push(b_new);
    }
    assert!(blockchain.validate());
    blockchain.chain[2].prev_hash[0] ^= 1;
    assert!(!blockchain.validate());
}

#[test]
fn minted_blocks_meet_their_target() {
    let mut tip = Block::genesis();
    for _ in 0..5 {
        let b = Block::mint(Vec::new(), &tip).unwrap();
        assert!(b.has_valid_proof());
        assert_eq!(b.hash()[0], 0);
        tip = b;
    }
}

#[test]
fn mining_resumes_after_a_fruitless_batch() {
    let mut c = Block::genesis().next();
    let mut found = false;
    let mut batches = 0;
    while !found {
        let start = c.timestamp;
        found = c.mine(4);
        if !found {
            assert_eq!(c.timestamp, start + 4);
        }
        batches += 1;
        assert!(batches < 100_000);
    }
    assert!(c.has_valid_proof());
    assert!(c.validate(&Block::genesis()));
}

#[test]
fn target_of_leading_bytes() {
    let h = vec![0u8, 0, 0, 0, 0, 0, 1, 2, 9, 9];
    assert_eq!(leading_value(&h), 0x0102);
    assert!(satisfies_target(&h, 0x0103));
    assert!(!satisfies_target(&h, 0x0102));
    assert!(!satisfies_target(&vec![0u8; 7], u64::MAX));
}

#[test]
fn append_outcomes() {
    let mut chain = Blockchain::new();
    let g = chain.chain[0].clone();
    let b1 = Block::mint(Vec::new(), &g).unwrap();
    let b2 = Block::mint(Vec::new(), &b1).unwrap();

    // a gap
    assert_eq!(chain.try_append(b2.clone()), AppendOutcome::NonContiguous);
    assert_eq!(chain.try_append(b1.clone()), AppendOutcome::Accepted);
    assert_eq!(chain.chain.len(), 2);
    // the same height again
    assert_eq!(chain.try_append(b1.clone()), AppendOutcome::Stale);

    // wrong previous hash
    let mut other = b2.clone();
    other.prev_hash = vec![1u8; 32];
    assert_eq!(chain.try_append(other), AppendOutcome::NonContiguous);

    // a changed target, then a hash that misses the target
    let mut easier = b2.clone();
    easier.target = u64::MAX;
    assert_eq!(chain.try_append(easier), AppendOutcome::InvalidProof);
    let mut unsolved = b1.next();
    while unsolved.has_valid_proof() {
        unsolved.timestamp += 1;
    }
    assert_eq!(chain.try_append(unsolved), AppendOutcome::InvalidProof);

    assert_eq!(chain.try_append(b2), AppendOutcome::Accepted);
    assert_eq!(chain.chain.len(), 3);
    assert!(chain.validate());
}

#[test]
fn coinbase_only_first() {
    let key = vec![3u8; 32];
    let g = Block::genesis();
    let b = Block::mint(vec![coinbase(1, &key, 50)], &g).unwrap();
    assert!(b.validate(&g));
    let too_much = Block::mint(vec![coinbase(1, &key, 51)], &g).unwrap();
    assert!(!too_much.validate(&g));
    let second = Block::mint(vec![coinbase(1, &key, 5), coinbase(2, &key, 5)], &g).unwrap();
    assert!(!second.validate(&g));
    let zero = Block::mint(vec![coinbase(1, &key, 0)], &g).unwrap();
    assert!(!zero.validate(&g));
}

#[test]
fn checkpoint_detects_tampering() {
    let mut chain = Blockchain::new();
    assert!(chain.checkpoint_holds());
    let b1 = Block::mint(Vec::new(), &chain.chain[0]).unwrap();
    assert_eq!(chain.try_append(b1), AppendOutcome::Accepted);
    chain.checkpoint();
    let cp = chain.last_cp.clone().unwrap();
    assert_eq!(cp.height, 1);
    assert_eq!(cp.state, chain.state_hash());
    assert!(chain.checkpoint_holds());
    chain.chain[1].timestamp += 1;
    assert!(!chain.checkpoint_holds());
}

/// A chain whose block 1 pays 50 to the node's own key.
fn funded_node() -> (Node, Vec<u8>) {
    let mut node = Node::new();
    let key = node.wallet.public_key(0).clone();
    let tip = node.blockchain.chain[0].clone();
    let b1 = Block::mint(vec![coinbase(1, &key, 50)], &tip).unwrap();
    assert_eq!(node.receive_block(b1), AppendOutcome::Accepted);
    (node, key)
}

#[test]
fn signed_transfer_is_accepted() {
    let (mut node, key) = funded_node();
    let source = OutputRef { block: 1, tx: 0, output: 0 };
    let spent = Output { recipient: key.clone(), amount: 50 };
    let receiver = vec![9u8; 32];
    let tx = node.perform_transaction(2, source, &spent, 20, &receiver).unwrap();
    assert_eq!(tx.outputs.len(), 2);
    assert_eq!(tx.outputs[0].amount, 20);
    assert_eq!(tx.outputs[1].amount, 30);
    assert_eq!(tx.outputs[1].recipient, key);
    assert_eq!(tx.inputs[0].signature.len(), 64);
    assert!(tx.validate());

    // any change to what was signed breaks the signature
    let mut forged = tx.clone();
    forged.outputs[0].amount = 21;
    assert!(!forged.validate());
    let mut bad_sig = tx.clone();
    bad_sig.inputs[0].signature[0] ^= 1;
    assert!(!bad_sig.validate());
    let mut greedy = tx.clone();
    greedy.inputs[0].spent.amount = 10;
    assert!(!greedy.validate());

    assert!(node.receive_transaction(tx.clone()));
    // the same transaction again, or another spending the same output
    assert!(!node.receive_transaction(tx.clone()));
    let rival = node.perform_transaction(7, source, &spent, 5, &receiver).unwrap();
    assert!(rival.validate());
    assert!(!node.receive_transaction(rival));
    assert_eq!(node.validator.transactions.len(), 1);
    assert!(!node.receive_transaction(forged));
    let mut candidate = node.start_candidate();
    assert!(node.validator.transactions.is_empty());
    assert_eq!(candidate.transactions.len(), 1);
    while !candidate.mine(1000) {}
    assert_eq!(node.receive_block(candidate.clone()), AppendOutcome::Accepted);
    assert!(node.blockchain.validate());

    // the output is spent now
    let again = node.perform_transaction(3, source, &spent, 10, &receiver).unwrap();
    let tip = node.blockchain.chain[2].clone();
    let b3 = Block::mint(vec![again], &tip).unwrap();
    assert_eq!(node.receive_block(b3), AppendOutcome::InvalidTransaction);
}

#[test]
fn double_spend_in_one_block_is_rejected() {
    let (mut node, key) = funded_node();
    let source = OutputRef { block: 1, tx: 0, output: 0 };
    let spent = Output { recipient: key.clone(), amount: 50 };
    let t1 = node.perform_transaction(2, source, &spent, 10, &vec![1u8; 32]).unwrap();
    let t2 = node.perform_transaction(3, source, &spent, 10, &vec![2u8; 32]).unwrap();
    assert!(t1.validate() && t2.validate());
    let tip = node.blockchain.chain[1].clone();
    let b = Block::mint(vec![t1.clone(), t2], &tip).unwrap();
    assert!(!b.validate(&tip));
    assert_eq!(node.receive_block(b), AppendOutcome::InvalidTransaction);
    let ok = Block::mint(vec![t1], &tip).unwrap();
    assert!(ok.validate(&tip));
}

#[test]
fn spending_a_missing_or_misquoted_output_is_rejected() {
    let (mut node, key) = funded_node();
    let tip = node.blockchain.chain[1].clone();
    let missing = OutputRef { block: 1, tx: 0, output: 1 };
    let spent = Output { recipient: key.clone(), amount: 50 };
    let t = node.perform_transaction(2, missing, &spent, 10, &vec![1u8; 32]).unwrap();
    let b = Block::mint(vec![t], &tip).unwrap();
    assert_eq!(node.receive_block(b), AppendOutcome::InvalidTransaction);

    let source = OutputRef { block: 1, tx: 0, output: 0 };
    let inflated = Output { recipient: key.clone(), amount: 60 };
    let t = node.perform_transaction(3, source, &inflated, 55, &vec![1u8; 32]).unwrap();
    let b = Block::mint(vec![t], &tip).unwrap();
    assert_eq!(node.receive_block(b), AppendOutcome::InvalidTransaction);
}

#[test]
fn blocks_ahead_of_the_tip_are_kept() {
    let mut node = Node::new();
    let g = node.blockchain.chain[0].clone();
    let b1 = Block::mint(Vec::new(), &g).unwrap();
    let b2 = Block::mint(Vec::new(), &b1).unwrap();
    assert_eq!(node.receive_block(b2), AppendOutcome::NonContiguous);
    assert_eq!(node.blocks.len(), 1);
    assert_eq!(node.receive_block(b1), AppendOutcome::Accepted);
    assert_eq!(node.blocks.len(), 1);
    assert_eq!(node.attach_kept_blocks(), 1);
    assert_eq!(node.blockchain.chain.len(), 3);
    assert!(node.blocks.is_empty());
    assert!(node.blockchain.validate());
    assert_eq!(node.attach_kept_blocks(), 0);
}

#[test]
fn kept_blocks_are_bounded_and_checked() {
    let mut node = Node::new();
    let g = node.blockchain.chain[0].clone();
    let b1 = Block::mint(Vec::new(), &g).unwrap();
    let b2 = Block::mint(Vec::new(), &b1).unwrap();

    let mut unsolved = b2.clone();
    while unsolved.has_valid_proof() {
        unsolved.timestamp += 1;
    }
    assert_eq!(node.receive_block(unsolved), AppendOutcome::NonContiguous);
    assert!(node.blocks.is_empty());

    for _ in 0..MAX_KEPT_BLOCKS + 5 {
        assert_eq!(node.receive_block(b2.clone()), AppendOutcome::NonContiguous);
    }
    assert_eq!(node.blocks.len(), MAX_KEPT_BLOCKS);
    assert_eq!(node.receive_block(b1), AppendOutcome::Accepted);
    assert_eq!(node.attach_kept_blocks(), 1);
    // the other copies no longer follow the tip and stay aside
    assert_eq!(node.blocks.len(), MAX_KEPT_BLOCKS - 1);
    assert_eq!(node.blockchain.chain.len(), 3);
}

#[test]
fn new_node_starts_from_genesis() {
    let node = Node::new();
    assert_eq!(node.blockchain.chain.len(), 1);
    assert_eq!(node.blockchain.chain[0].hash(), Block::genesis().hash());
    assert!(node.blockchain.last_cp.is_none());
    assert!(node.blockchain.validate());
    assert_eq!(node.wallet.total_funds(), 0);
    assert_eq!(node.wallet.select_outputs_covering(1), None);
    assert!(node.blocks.is_empty());
    assert!(node.validator.transactions.is_empty());
}

#[test]
fn two_nodes_converge() {
    let mut a = Node::new();
    let mut b = Node::new();
    let mut b_peers = PeerSet::new();
    assert!(b_peers.add_peer(1, String::from("127.0.0.1:9901")));
    assert_eq!(b_peers.len(), 1);
    assert_eq!(b_peers.address(0), "127.0.0.1:9901");
    assert_eq!(b_peers.gossip_targets(None), vec![1]);

    let key = a.wallet.public_key(0).clone();
    let tip = a.blockchain.chain[0].clone();
    let block = Block::mint(vec![coinbase(1, &key, 50)], &tip).unwrap();
    assert_eq!(block.transactions.len(), 1);
    assert_eq!(a.receive_block(block.clone()), AppendOutcome::Accepted);

    let before = b.blockchain.chain.len();
    assert_eq!(b.receive_block(block), AppendOutcome::Accepted);
    assert_eq!(b.blockchain.chain.len(), before + 1);
    assert_eq!(b.blockchain.state_hash(), a.blockchain.state_hash());
}

#[test]
fn node_it_works() {}

#[test]
fn validate() {}

#[test]
fn wallet_it_works() {}

#[test]
fn blocks_and_transactions_round_trip_through_bytes() {
    let (node, key) = funded_node();
    let source = OutputRef { block: 1, tx: 0, output: 0 };
    let spent = Output { recipient: key.clone(), amount: 50 };
    let tx = node.perform_transaction(2, source, &spent, 20, &vec![5u8; 32]).unwrap();
    let bytes = tx.to_bytes();
    let back = Transaction::from_bytes(&bytes).unwrap();
    assert_eq!(back.to_bytes(), bytes);
    assert!(back.validate());
    assert_eq!(back.outputs[1].amount, 30);

    let tip = node.blockchain.chain[1].clone();
    let block = Block::mint(vec![tx], &tip).unwrap();
    let bytes = block.as_bytes();
    let back = Block::from_bytes(&bytes).unwrap();
    assert_eq!(back.hash(), block.hash());
    assert_eq!(back.id, 2);
    assert!(back.validate(&tip));

    let mut longer = bytes.clone();
    longer.push(0);
    assert!(Block::from_bytes(&longer).is_none());
    assert!(Block::from_bytes(&bytes[..bytes.len() - 1].to_vec()).is_none());
    assert!(Transaction::from_bytes(&Vec::new()).is_none());
}
