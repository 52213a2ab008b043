//! The peer-to-peer protocol's decisions: message framing with a size
//! bound, and the bounded set of connected peers with discovery and gossip
//! targets. Sockets and tasks live outside the library.

use vstd::prelude::*;
use vstd::bytes::{spec_u64_to_le_bytes, spec_u64_from_le_bytes, u64_from_le_bytes};
use vstd::slice::{slice_subrange, slice_to_vec};
use crate::crypto::random_below;
use crate::encoding::{u64_bytes, push_u64};

verus! {

/// The largest message body a peer may send.
pub const MAX_MESSAGE_SIZE: usize = 8 * 1024 * 1024;
/// Below this many peers a node should look for more.
pub const MIN_PEERS: usize = 8;
/// A node never holds more peers than this.
pub const MAX_PEERS: usize = 16;
/// The version byte that opens every frame.
pub const WIRE_VERSION: u8 = 1;
/// Version byte, kind byte, and the body's length as eight little-endian bytes.
pub const HEADER_LEN: usize = 10;

#[derive(Clone, Copy, Debug, PartialEq, Eq, Structural)]
pub enum MessageKind {
    PeerAddress,
    NewTransaction,
    NewBlock,
    ChainStateHash,
}

#[derive(Clone, Copy, Debug, PartialEq, Eq, Structural)]
pub enum FrameError {
    UnsupportedVersion,
    UnknownKind,
    TooLarge,
}

/// A complete message: its kind and its body.
#[derive(Clone, Debug)]
pub struct Frame {
    pub kind: MessageKind,
    pub body: Vec<u8>,
}

pub open spec fn spec_kind_tag(k: MessageKind) -> u8 {
    match k {
        MessageKind::PeerAddress => 1,
        MessageKind::NewTransaction => 2,
        MessageKind::NewBlock => 3,
        MessageKind::ChainStateHash => 4,
    }
}

pub open spec fn spec_kind_of_tag(t: u8) -> Option<MessageKind> {
    if t == 1 {
        Some(MessageKind::PeerAddress)
    } else if t == 2 {
        Some(MessageKind::NewTransaction)
    } else if t == 3 {
        Some(MessageKind::NewBlock)
    } else if t == 4 {
        Some(MessageKind::ChainStateHash)
    } else {
        None
    }
}

/// The bytes of a frame holding `body`.
pub open spec fn frame_bytes(kind: MessageKind, body: Seq<u8>) -> Seq<u8> {
    seq![WIRE_VERSION, spec_kind_tag(kind)] + u64_bytes(body.len() as u64) + body
}

/// The length a frame header declares (the header must be complete).
pub open spec fn declared_len(buf: Seq<u8>) -> u64 {
    spec_u64_from_le_bytes(buf.subrange(2, HEADER_LEN as int))
}

/// What the start of `buf` holds: `Ok(None)` while a frame is incomplete,
/// the frame once it is complete, or why it can never be accepted.
pub open spec fn decode_result(buf: Seq<u8>) -> Result<Option<(MessageKind, Seq<u8>)>, FrameError> {
    if buf.len() < HEADER_LEN {
        Ok(None)
    } else if buf[0] != WIRE_VERSION {
        Err(FrameError::UnsupportedVersion)
    } else if spec_kind_of_tag(buf[1]) is None {
        Err(FrameError::UnknownKind)
    } else if declared_len(buf) > MAX_MESSAGE_SIZE {
        Err(FrameError::TooLarge)
    } else if buf.len() < HEADER_LEN + declared_len(buf) {
        Ok(None)
    } else {
        Ok(
            Some(
                (
                    spec_kind_of_tag(buf[1]).unwrap(),
                    buf.subrange(HEADER_LEN as int, HEADER_LEN + declared_len(buf)),
                ),
            ),
        )
    }
}

pub fn kind_tag(k: MessageKind) -> (r: u8)
    ensures
        r == spec_kind_tag(k),
{
    match k {
        MessageKind::PeerAddress => 1,
        MessageKind::NewTransaction => 2,
        MessageKind::NewBlock => 3,
        MessageKind::ChainStateHash => 4,
    }
}

pub fn kind_of_tag(t: u8) -> (r: Option<MessageKind>)
    ensures
        r == spec_kind_of_tag(t),
{
    if t == 1 {
        Some(MessageKind::PeerAddress)
    } else if t == 2 {
        Some(MessageKind::NewTransaction)
    } else if t == 3 {
        Some(MessageKind::NewBlock)
    } else if t == 4 {
        Some(MessageKind::ChainStateHash)
    } else {
        None
    }
}

/// Frames a message body; a body over the size bound is refused.
pub fn encode_frame(kind: MessageKind, body: &Vec<u8>) -> (r: Result<Vec<u8>, FrameError>)
    ensures
        body@.len() > MAX_MESSAGE_SIZE ==> r == Err::<Vec<u8>, FrameError>(FrameError::TooLarge),
        body@.len() <= MAX_MESSAGE_SIZE ==> r is Ok && r.unwrap()@ == frame_bytes(kind, body@),
{
    if body.len() > MAX_MESSAGE_SIZE {
        return Err(FrameError::TooLarge);
    }
    let mut buf: Vec<u8> = Vec::new();
    buf.push(WIRE_VERSION);
    buf.push(kind_tag(kind));
    push_u64(&mut buf, body.len() as u64);
    let mut i: usize = 0;
    let ghost start = buf@;
    while i < body.len()
        invariant
            i <= body@.len(),
            buf@ == start + body@.take(i as int),
        decreases body@.len() - i,
    {
        buf.push(body[i]);
        i = i + 1;
        assert(body@.take(i as int) =~= body@.take(i - 1) + seq![body@[i - 1]]);
    }
    assert(body@.take(body@.len() as int) =~= body@);
    assert(buf@ =~= frame_bytes(kind, body@));
    Ok(buf)
}

/// Reads one frame from the start of `buf`.
pub fn decode_frame(buf: &Vec<u8>) -> (r: Result<Option<Frame>, FrameError>)
    ensures
        match (r, decode_result(buf@)) {
            (Ok(None), Ok(None)) => true,
            (Ok(Some(f)), Ok(Some((k, body)))) => f.kind == k && f.body@ == body,
            (Err(e), Err(e2)) => e == e2,
            _ => false,
        },
{
    if buf.len() < HEADER_LEN {
        return Ok(None);
    }
    if buf[0] != WIRE_VERSION {
        return Err(FrameError::UnsupportedVersion);
    }
    let kind = match kind_of_tag(buf[1]) {
        Some(k) => k,
        None => return Err(FrameError::UnknownKind),
    };
    let len = u64_from_le_bytes(slice_subrange(buf.as_slice(), 2, HEADER_LEN));
    if len > MAX_MESSAGE_SIZE as u64 {
        return Err(FrameError::TooLarge);
    }
    let end = HEADER_LEN + len as usize;
    if buf.len() < end {
        return Ok(None);
    }
    let body = slice_to_vec(slice_subrange(buf.as_slice(), HEADER_LEN, end));
    Ok(Some(Frame { kind, body }))
}

/// Decoding what `encode_frame` produced, followed by anything, gives back
/// the message.
pub proof fn lemma_frame_round_trip(kind: MessageKind, body: Seq<u8>, rest: Seq<u8>)
    requires
        body.len() <= MAX_MESSAGE_SIZE,
    ensures
        decode_result(frame_bytes(kind, body) + rest) == Ok::<
            Option<(MessageKind, Seq<u8>)>,
            FrameError,
        >(Some((kind, body))),
{
    vstd::bytes::lemma_auto_spec_u64_to_from_le_bytes();
    let buf = frame_bytes(kind, body) + rest;
    assert(buf.subrange(2, HEADER_LEN as int) =~= spec_u64_to_le_bytes(body.len() as u64));
    assert(declared_len(buf) == body.len());
    assert(buf.subrange(HEADER_LEN as int, HEADER_LEN + body.len()) =~= body);
}

/// A connected peer: the connection's id and the address it can be reached at.
#[derive(Clone, Debug)]
pub struct Peer {
    pub id: u64,
    pub address: String,
}

/// The active peers, at most `MAX_PEERS` of them, each id once.
pub struct PeerSet {
    peers: Vec<Peer>,
}

impl PeerSet {
    /// The ids of the active peers, in order of admission.
    pub closed spec fn ids(&self) -> Seq<u64> {
        self.peers@.map_values(|p: Peer| p.id)
    }

    /// The address of each active peer, in order of admission.
    pub closed spec fn addresses(&self) -> Seq<Seq<char>> {
        self.peers@.map_values(|p: Peer| p.address@)
    }

    pub open spec fn wf(&self) -> bool {
        &&& self.ids().len() <= MAX_PEERS
        &&& self.ids().no_duplicates()
        &&& self.addresses().len() == self.ids().len()
    }

    pub fn new() -> (r: Self)
        ensures
            r.wf(),
            r.ids() == Seq::<u64>::empty(),
    {
        let r = PeerSet { peers: Vec::new() };
        assert(r.ids() =~= Seq::<u64>::empty());
        r
    }

    pub fn len(&self) -> (r: usize)
        ensures
            r == self.ids().len(),
    {
        self.peers.len()
    }

    pub fn contains(&self, id: u64) -> (r: bool)
        ensures
            r == self.ids().contains(id),
    {
        let mut i: usize = 0;
        while i < self.peers.len()
            invariant
                i <= self.peers@.len(),
                forall|j: int| 0 <= j < i ==> self.ids()[j] != id,
            decreases self.peers@.len() - i,
        {
            if self.peers[i].id == id {
                assert(self.ids()[i as int] == id);
                return true;
            }
            i = i + 1;
        }
        false
    }

    /// Admits a new connection unless the set is full or the id is taken;
    /// a refused connection leaves the set unchanged.
    pub fn add_peer(&mut self, id: u64, address: String) -> (admitted: bool)
        requires
            old(self).wf(),
        ensures
            final(self).wf(),
            admitted == (old(self).ids().len() < MAX_PEERS && !old(self).ids().contains(id)),
            admitted ==> final(self).ids() == old(self).ids().push(id),
            admitted ==> final(self).addresses() == old(self).addresses().push(address@),
            !admitted ==> final(self).ids() == old(self).ids(),
            !admitted ==> final(self).addresses() == old(self).addresses(),
    {
        if self.peers.len() >= MAX_PEERS || self.contains(id) {
            return false;
        }
        let ghost a = address@;
        self.peers.push(Peer { id, address });
        assert(self.ids() =~= old(self).ids().push(id));
        assert(self.addresses() =~= old(self).addresses().push(a));
        true
    }

    /// Removes a disconnected peer; returns whether it was present. The
    /// other peers keep their addresses and their order.
    pub fn remove(&mut self, id: u64) -> (removed: bool)
        requires
            old(self).wf(),
        ensures
            final(self).wf(),
            removed == old(self).ids().contains(id),
            !final(self).ids().contains(id),
            removed ==> exists|i: int|
                0 <= i < old(self).ids().len() && #[trigger] old(self).ids()[i] == id
                    && final(self).ids() == old(self).ids().remove(i) && final(self).addresses()
                    == old(self).addresses().remove(i),
            !removed ==> final(self).ids() == old(self).ids() && final(self).addresses() == old(
                self,
            ).addresses(),
    {
        let mut i: usize = 0;
        while i < self.peers.len()
            invariant
                self == old(self),
                self.wf(),
                i <= self.peers@.len(),
                forall|j: int| 0 <= j < i ==> self.ids()[j] != id,
            decreases self.peers@.len() - i,
        {
            if self.peers[i].id == id {
                let ghost before = self.ids();
                let ghost addrs = self.addresses();
                self.peers.remove(i);
                assert(self.ids() =~= before.remove(i as int));
                assert(self.addresses() =~= addrs.remove(i as int));
                proof {
                    assert(before.no_duplicates());
                    assert(before[i as int] == id);
                    assert forall|j: int| 0 <= j < self.ids().len() implies #[trigger] self.ids()[j]
                        == if j < i { before[j] } else { before[j + 1] } by {}
                    assert forall|a: int, b: int|
                        0 <= a < self.ids().len() && 0 <= b < self.ids().len() && a != b implies
                        self.ids()[a] != self.ids()[b] by {
                        let a1 = if a < i { a } else { a + 1 };
                        let b1 = if b < i { b } else { b + 1 };
                        assert(self.ids()[a] == before[a1]);
                        assert(self.ids()[b] == before[b1]);
                    }
                    assert forall|j: int| 0 <= j < self.ids().len() implies self.ids()[j] != id by {
                        let j1 = if j < i { j } else { j + 1 };
                        assert(self.ids()[j] == before[j1]);
                    }
                    assert(before[i as int] == id && self.ids() == before.remove(i as int)
                        && self.addresses() == addrs.remove(i as int));
                }
                return true;
            }
            i = i + 1;
        }
        false
    }

    /// Whether the node should look for more peers.
    pub fn needs_more_peers(&self) -> (r: bool)
        ensures
            r == (self.ids().len() < MIN_PEERS),
    {
        self.peers.len() < MIN_PEERS
    }

    /// Whether another inbound connection may be accepted.
    pub fn has_room(&self) -> (r: bool)
        ensures
            r == (self.ids().len() < MAX_PEERS),
    {
        self.peers.len() < MAX_PEERS
    }

    /// The address of the peer at `i`.
    pub fn address(&self, i: usize) -> (r: &String)
        requires
            i < self.ids().len(),
            self.wf(),
        ensures
            r@ == self.addresses()[i as int],
    {
        &self.peers[i]
            .address
    }

    /// Picks, at random, one of the peers admitted before the newest one, whose
    /// address is sent to the newest one; none when it is alone.
    pub fn discovery_peer(&self) -> (r: Option<usize>)
        requires
            self.wf(),
        ensures
            r is Some <==> self.ids().len() > 1,
            r is Some ==> r.unwrap() < self.ids().len() - 1,
    {
        if self.peers.len() > 1 {
            Some(random_below(self.peers.len() - 1))
        } else {
            None
        }
    }

    /// The peers a message is relayed to: every active peer but the one it
    /// came from.
    pub fn gossip_targets(&self, origin: Option<u64>) -> (r: Vec<u64>)
        ensures
            r@ == self.ids().filter(|x: u64| origin != Some(x)),
    {
        let mut out: Vec<u64> = Vec::new();
        let mut i: usize = 0;
        assert(self.ids().take(0) =~= Seq::<u64>::empty());
        while i < self.peers.len()
            invariant
                i <= self.peers@.len(),
                out@ == self.ids().take(i as int).filter(|x: u64| origin != Some(x)),
            decreases self.peers@.len() - i,
        {
            let id = self.peers[i].id;
            assert(self.ids().take(i + 1).drop_last() =~= self.ids().take(i as int));
            assert(self.ids().take(i + 1).last() == id);
            proof {
                self.ids().take(i as int).lemma_filter_push(id, |x: u64| origin != Some(x));
                assert(self.ids().take(i + 1) =~= self.ids().take(i as int).push(id));
            }
            if origin != Some(id) {
                out.push(id);
            }
            i = i + 1;
        }
        assert(self.ids().take(self.peers@.len() as int) =~= self.ids());
        out
    }
}

} // verus!
