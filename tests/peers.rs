use powchain::network::{
    decode_frame, encode_frame, FrameError, MessageKind, PeerSet, HEADER_LEN, MAX_MESSAGE_SIZE,
    MAX_PEERS, MIN_PEERS,
};
use powchain::transaction::OutputRef;
use powchain::wallet::{Coin, Wallet};

#[test]
fn peer_count_is_bounded() {
    let mut peers = PeerSet::new();
    assert!(peers.needs_more_peers());
    for i in 0..MAX_PEERS as u64 {
        assert!(peers.add_peer(i, format!("10.0.0.{}:9000", i)));
    }
    assert_eq!(peers.len(), MAX_PEERS);
    assert!(!peers.has_room());
    assert!(!peers.needs_more_peers());
    assert!(!peers.add_peer(100, String::from("10.0.1.1:9000")));
    assert_eq!(peers.len(), MAX_PEERS);
    assert!(peers.remove(3));
    assert!(peers.has_room());
    assert!(peers.add_peer(100, String::from("10.0.1.1:9000")));
    assert_eq!(peers.len(), MAX_PEERS);
}

#[test]
fn peer_ids_are_unique() {
    let mut peers = PeerSet::new();
    assert!(peers.add_peer(1, String::from("a")));
    assert!(!peers.add_peer(1, String::from("b")));
    assert!(peers.contains(1));
    assert!(!peers.remove(2));
    assert!(peers.remove(1));
    assert!(!peers.contains(1));
    assert_eq!(peers.len(), 0);
    assert!(MIN_PEERS <= MAX_PEERS);
}

#[test]
fn discovery_skips_the_newcomer() {
    let mut peers = PeerSet::new();
    assert!(peers.add_peer(1, String::from("a")));
    assert_eq!(peers.discovery_peer(), None);
    assert!(peers.add_peer(2, String::from("b")));
    assert_eq!(peers.discovery_peer(), Some(0));
    assert!(peers.add_peer(3, String::from("c")));
    for _ in 0..20 {
        assert!(peers.discovery_peer().unwrap() < 2);
    }
}

#[test]
fn gossip_skips_the_origin() {
    let mut peers = PeerSet::new();
    for i in 1..4u64 {
        assert!(peers.add_peer(i, format!("p{}", i)));
    }
    assert_eq!(peers.gossip_targets(Some(2)), vec![1, 3]);
    assert_eq!(peers.gossip_targets(None), vec![1, 2, 3]);
}

#[test]
fn frames_round_trip() {
    let body = b"127.0.0.1:9901".to_vec();
    let mut bytes = encode_frame(MessageKind::PeerAddress, &body).unwrap();
    assert_eq!(bytes.len(), HEADER_LEN + body.len());
    assert_eq!(bytes[0], 1);
    assert_eq!(bytes[1], 1);
    assert_eq!(decode_frame(&bytes[..5].to_vec()).unwrap().is_none(), true);
    assert!(decode_frame(&bytes[..bytes.len() - 1].to_vec()).unwrap().is_none());
    bytes.extend_from_slice(&[4, 4, 4]);
    let f = decode_frame(&bytes).unwrap().unwrap();
    assert_eq!(f.kind, MessageKind::PeerAddress);
    assert_eq!(f.body, body);

    let empty = encode_frame(MessageKind::ChainStateHash, &Vec::new()).unwrap();
    let f = decode_frame(&empty).unwrap().unwrap();
    assert_eq!(f.kind, MessageKind::ChainStateHash);
    assert!(f.body.is_empty());
}

#[test]
fn oversized_frames_are_refused() {
    let big = vec![0u8; MAX_MESSAGE_SIZE + 1];
    assert_eq!(encode_frame(MessageKind::NewBlock, &big).unwrap_err(), FrameError::TooLarge);
    let exact = vec![0u8; MAX_MESSAGE_SIZE];
    assert!(encode_frame(MessageKind::NewBlock, &exact).is_ok());

    // a malicious peer announces a body one byte over the bound
    let mut header = vec![1u8, 3];
    header.extend_from_slice(&((MAX_MESSAGE_SIZE as u64) + 1).to_le_bytes());
    assert_eq!(decode_frame(&header).unwrap_err(), FrameError::TooLarge);

    // its connection is dropped, the others stay
    let mut peers = PeerSet::new();
    for i in 0..3u64 {
        assert!(peers.add_peer(i, format!("p{}", i)));
    }
    assert!(peers.remove(1));
    assert_eq!(peers.len(), 2);
    assert!(peers.contains(0) && peers.contains(2));
}

#[test]
fn malformed_frames_are_refused() {
    let mut bytes = encode_frame(MessageKind::NewTransaction, &vec![1, 2, 3]).unwrap();
    bytes[1] = 9;
    assert_eq!(decode_frame(&bytes).unwrap_err(), FrameError::UnknownKind);
    bytes[0] = 2;
    assert_eq!(decode_frame(&bytes).unwrap_err(), FrameError::UnsupportedVersion);
}

#[test]
fn wallet_signs_only_for_its_keys() {
    let w = Wallet::new();
    assert_eq!(w.total_funds(), 0);
    let pk = w.public_key(0).clone();
    assert_eq!(pk.len(), 32);
    let msg = b"Hello World".to_vec();
    let sig = w.sign_input(&pk, &msg).unwrap();
    assert_eq!(sig.len(), 64);
    assert_eq!(w.sign_input(&pk, &msg).unwrap(), sig);
    assert_ne!(w.sign_input(&pk, &b"Hello".to_vec()).unwrap(), sig);
    assert!(w.sign_input(&vec![0u8; 32], &msg).is_none());
    assert_ne!(Wallet::new().public_key(0), &pk);
}

#[test]
fn wallet_selects_the_oldest_covering_coins() {
    let mut w = Wallet::new();
    assert!(w.select_outputs_covering(1).is_none());
    assert_eq!(w.select_outputs_covering(0), Some(Vec::new()));
    let r = |b: u64| OutputRef { block: b, tx: 0, output: 0 };
    w.receive_coin(Coin { source: r(1), amount: 10 });
    w.receive_coin(Coin { source: r(2), amount: 5 });
    w.receive_coin(Coin { source: r(3), amount: 20 });
    assert_eq!(w.select_outputs_covering(10), Some(vec![r(1)]));
    assert_eq!(w.select_outputs_covering(11), Some(vec![r(1), r(2)]));
    assert_eq!(w.select_outputs_covering(16), Some(vec![r(1), r(2), r(3)]));
    assert_eq!(w.select_outputs_covering(35), Some(vec![r(1), r(2), r(3)]));
    assert!(w.select_outputs_covering(36).is_none());
}
