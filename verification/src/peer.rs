//! Peers: the pieces a peer has, its address and state, and the handshake.
use vstd::prelude::*;
use vstd::slice::slice_to_vec;
use crate::message::Message;

verus! {

pub const HANDSHAKE_SIZE: usize = 68;

/// The pieces that a peer announced, one bit per piece, first piece in the
/// high bit of the first byte.
#[derive(Debug, Clone)]
pub struct BitField {
    pub bytes: Vec<u8>,
    pub num_pieces: usize,
}

/// The bit of piece `index` in a bit field of `num_pieces` pieces.
pub open spec fn bit_of(bytes: Seq<u8>, num_pieces: usize, index: int) -> bool {
    0 <= index < num_pieces && (bytes[index / 8] >> ((7 - index % 8) as u8)) & 1u8 == 1u8
}

impl BitField {
    pub fn new(bytes: Vec<u8>, num_pieces: usize) -> (r: Self)
        ensures
            r.bytes@ == bytes@,
            r.num_pieces == num_pieces,
    {
        Self { bytes, num_pieces }
    }

    /// `has_piece` can read the bit of `index`: an index below the number of
    /// pieces has its byte.
    pub open spec fn readable(&self, index: int) -> bool {
        index < self.num_pieces ==> index / 8 < self.bytes.len()
    }

    pub open spec fn has(&self, index: int) -> bool {
        bit_of(self.bytes@, self.num_pieces, index)
    }

    /// Whether the peer has the piece; false for an index past the last piece.
    pub fn has_piece(&self, index: usize) -> (r: bool)
        requires
            self.readable(index as int),
        ensures
            r == self.has(index as int),
    {
        if index >= self.num_pieces {
            return false;
        }
        let byte = index / 8;
        let bit = (7 - (index % 8)) as u8;
        let b = self.bytes[byte];
        assert((b & (1u8 << bit) != 0u8) == ((b >> bit) & 1u8 == 1u8)) by (bit_vector)
            requires
                bit < 8,
        ;
        b & (1u8 << bit) != 0
    }
}

/// A peer's socket address: IP version, address bits and port.
#[derive(Debug, Clone, Copy, PartialEq, Eq, Structural)]
pub enum PeerAddr {
    V4 { ip4: u32, port: u16 },
    V6 { ip6: u128, port: u16, flowinfo: u32, scope_id: u32 },
}

#[derive(Debug, Clone)]
pub struct Peer {
    addr: PeerAddr,
    bitfield: Option<BitField>,
    peer_id: [u8; 20],
    chocked: bool,
    interested: bool,
}

/// What one message of the first exchange did to the peer.
#[derive(Debug, Clone, Copy, PartialEq, Eq, Structural)]
pub enum InitialMessageOutcome {
    /// A keep-alive: nothing changed, read on.
    Ignored,
    /// An unchoke or a bit field was recorded; `done` once the peer both has
    /// a bit field and is unchoked.
    Recorded { done: bool },
    /// Any other message ends the first exchange.
    Ended,
}

/// The protocol name of the handshake, "BitTorrent protocol".
pub open spec fn protocol_name() -> Seq<u8> {
    seq![66u8, 105, 116, 84, 111, 114, 114, 101, 110, 116, 32, 112, 114, 111, 116, 111, 99, 111, 108]
}

/// The handshake: the name's length, the name, eight zero bytes, the info
/// hash and the peer id.
pub open spec fn handshake_bytes(info_hash: Seq<u8>, peer_id: Seq<u8>) -> Seq<u8> {
    seq![19u8] + protocol_name() + Seq::new(8, |i: int| 0u8) + info_hash + peer_id
}

/// Why a peer's handshake was refused.
#[derive(Debug, Clone, Copy, PartialEq, Eq, Structural)]
pub enum HandshakeError {
    InvalidPstrlen,
    InvalidPstr,
    InfoHashMismatch,
}

/// What checking a received handshake against our info hash gives: the
/// peer's id, or the first check that failed.
pub open spec fn handshake_check(buf: Seq<u8>, info_hash: Seq<u8>) -> Result<Seq<u8>, HandshakeError> {
    if buf[0] != 19 {
        Err(HandshakeError::InvalidPstrlen)
    } else if buf.subrange(1, 20) != protocol_name() {
        Err(HandshakeError::InvalidPstr)
    } else if buf.subrange(28, 48) != info_hash {
        Err(HandshakeError::InfoHashMismatch)
    } else {
        Ok(buf.subrange(48, 68))
    }
}

fn protocol_name_bytes() -> (r: Vec<u8>)
    ensures
        r@ == protocol_name(),
{
    let r = vec![66u8, 105, 116, 84, 111, 114, 114, 101, 110, 116, 32, 112, 114, 111, 116, 111, 99, 111, 108];
    assert(r@ =~= protocol_name());
    r
}

fn slices_equal(a: &[u8], a_from: usize, b: &[u8], len: usize) -> (r: bool)
    requires
        a_from + len <= a.len(),
        len == b.len(),
    ensures
        r == (a@.subrange(a_from as int, a_from + len) == b@),
{
    let mut i: usize = 0;
    while i < len
        invariant
            a_from + len <= a.len(),
            len == b.len(),
            0 <= i <= len,
            forall|k: int| 0 <= k < i ==> a@[a_from + k] == b@[k],
        decreases len - i,
    {
        if a[a_from + i] != b[i] {
            assert(a@.subrange(a_from as int, a_from + len)[i as int] != b@[i as int]);
            return false;
        }
        i = i + 1;
    }
    assert(a@.subrange(a_from as int, a_from + len) =~= b@);
    true
}

impl Peer {
    pub closed spec fn spec_addr(&self) -> PeerAddr {
        self.addr
    }

    pub closed spec fn spec_bitfield(&self) -> Option<BitField> {
        self.bitfield
    }

    pub closed spec fn spec_peer_id(&self) -> Seq<u8> {
        self.peer_id@
    }

    pub closed spec fn spec_chocked(&self) -> bool {
        self.chocked
    }

    pub closed spec fn spec_interested(&self) -> bool {
        self.interested
    }

    /// A peer at `addr`: choked, not interested, no bit field, a zero id.
    pub fn new(addr: PeerAddr) -> (r: Self)
        ensures
            r.spec_addr() == addr,
            r.spec_bitfield() is None,
            r.spec_chocked(),
            !r.spec_interested(),
            r.spec_peer_id() == Seq::new(20, |i: int| 0u8),
    {
        let r = Self {
            addr,
            bitfield: None,
            chocked: true,
            interested: false,
            peer_id: [0u8; 20],
        };
        assert(r.peer_id@ =~= Seq::new(20, |i: int| 0u8));
        r
    }

    pub fn addr(&self) -> (r: PeerAddr)
        ensures
            r == self.spec_addr(),
    {
        self.addr
    }

    pub fn chocked(&self) -> (r: bool)
        ensures
            r == self.spec_chocked(),
    {
        self.chocked
    }

    pub fn interested(&self) -> (r: bool)
        ensures
            r == self.spec_interested(),
    {
        self.interested
    }

    pub fn peer_id(&self) -> (r: [u8; 20])
        ensures
            r@ == self.spec_peer_id(),
    {
        self.peer_id
    }

    pub fn bitfield(&self) -> (r: &Option<BitField>)
        ensures
            *r == self.spec_bitfield(),
    {
        &self.bitfield
    }

    pub fn set_bitfield(&mut self, bitfield: BitField)
        ensures
            final(self).spec_bitfield() == Some(bitfield),
            final(self).spec_addr() == old(self).spec_addr(),
            final(self).spec_chocked() == old(self).spec_chocked(),
            final(self).spec_interested() == old(self).spec_interested(),
            final(self).spec_peer_id() == old(self).spec_peer_id(),
    {
        self.bitfield = Some(bitfield);
    }

    pub fn has_bitfield(&self) -> (r: bool)
        ensures
            r == self.spec_bitfield() is Some,
    {
        self.bitfield.is_some()
    }

    /// Applies one message of the first exchange after the handshake: an
    /// unchoke unchokes, a bit field is recorded for `num_pieces` pieces.
    pub fn apply_initial_message(&mut self, message: &Message, num_pieces: usize) -> (r:
        InitialMessageOutcome)
        ensures
            final(self).spec_addr() == old(self).spec_addr(),
            final(self).spec_interested() == old(self).spec_interested(),
            final(self).spec_peer_id() == old(self).spec_peer_id(),
            match message {
                Message::KeepAlive => r == InitialMessageOutcome::Ignored && *final(self) == *old(self),
                Message::Unchoke => !final(self).spec_chocked() && final(self).spec_bitfield()
                    == old(self).spec_bitfield() && r == (InitialMessageOutcome::Recorded {
                    done: final(self).spec_bitfield() is Some,
                }),
                Message::Bitfield(b) => {
                    &&& final(self).spec_chocked() == old(self).spec_chocked()
                    &&& final(self).spec_bitfield() matches Some(f)
                    &&& f.bytes@ == b@
                    &&& f.num_pieces == num_pieces
                    &&& r == (InitialMessageOutcome::Recorded { done: !final(self).spec_chocked() })
                },
                _ => r == InitialMessageOutcome::Ended && *final(self) == *old(self),
            },
    {
        match message {
            Message::KeepAlive => {
                return InitialMessageOutcome::Ignored;
            },
            Message::Unchoke => {
                self.chocked = false;
            },
            Message::Bitfield(b) => {
                self.bitfield = Some(BitField::new(slice_to_vec(b.as_slice()), num_pieces));
            },
            _ => {
                return InitialMessageOutcome::Ended;
            },
        }
        InitialMessageOutcome::Recorded { done: self.has_bitfield() && !self.chocked() }
    }

    /// Checks the handshake a peer sent back; on success records its id.
    pub fn accept_handshake(&mut self, buf: &[u8], info_hash: &[u8]) -> (r: Result<(), HandshakeError>)
        requires
            buf.len() == HANDSHAKE_SIZE,
            info_hash.len() == 20,
        ensures
            match handshake_check(buf@, info_hash@) {
                Ok(id) => r is Ok && final(self).spec_peer_id() == id,
                Err(e) => r == Err::<(), HandshakeError>(e) && final(self).spec_peer_id() == old(
                    self,
                ).spec_peer_id(),
            },
            final(self).spec_addr() == old(self).spec_addr(),
            final(self).spec_bitfield() == old(self).spec_bitfield(),
            final(self).spec_chocked() == old(self).spec_chocked(),
            final(self).spec_interested() == old(self).spec_interested(),
    {
        if buf[0] != 19 {
            return Err(HandshakeError::InvalidPstrlen);
        }
        let name = protocol_name_bytes();
        if !slices_equal(buf, 1, name.as_slice(), 19) {
            return Err(HandshakeError::InvalidPstr);
        }
        if !slices_equal(buf, 28, info_hash, 20) {
            return Err(HandshakeError::InfoHashMismatch);
        }
        let mut id = [0u8; 20];
        let mut i: usize = 0;
        while i < 20
            invariant
                buf.len() == HANDSHAKE_SIZE,
                0 <= i <= 20,
                forall|k: int| 0 <= k < i ==> id@[k] == buf@[48 + k],
            decreases 20 - i,
        {
            id[i] = buf[48 + i];
            i = i + 1;
        }
        assert(id@ =~= buf@.subrange(48, 68));
        self.peer_id = id;
        Ok(())
    }
}

/// The handshake we send: our info hash and our id.
pub fn build_handshake(info_hash: &[u8], client_id: &[u8]) -> (r: Vec<u8>)
    ensures
        r@ == handshake_bytes(info_hash@, client_id@),
{
    let mut handshake = Vec::new();
    handshake.push(19u8);
    let name = protocol_name_bytes();
    crate::bencode::encode::append_bytes(&mut handshake, name.as_slice());
    let mut i: usize = 0;
    while i < 8
        invariant
            0 <= i <= 8,
            handshake@ == seq![19u8] + protocol_name() + Seq::new(i as nat, |k: int| 0u8),
        decreases 8 - i,
    {
        handshake.push(0u8);
        i = i + 1;
        assert(handshake@ =~= seq![19u8] + protocol_name() + Seq::new(i as nat, |k: int| 0u8));
    }
    crate::bencode::encode::append_bytes(&mut handshake, info_hash);
    crate::bencode::encode::append_bytes(&mut handshake, client_id);
    handshake
}

/// The eight reserved bytes of a handshake (where clients flag extensions
/// such as the extension protocol, DHT or fast peers) play no part in the
/// check: replacing them by any other eight bytes gives the same answer.
pub proof fn law_handshake_reserved_ignored(buf: Seq<u8>, reserved: Seq<u8>, info_hash: Seq<u8>)
    requires
        buf.len() == HANDSHAKE_SIZE,
        reserved.len() == 8,
    ensures
        handshake_check(buf.subrange(0, 20) + reserved + buf.subrange(28, 68), info_hash)
            == handshake_check(buf, info_hash),
{
    let other = buf.subrange(0, 20) + reserved + buf.subrange(28, 68);
    assert(other[0] == buf[0]);
    assert(other.subrange(1, 20) =~= buf.subrange(1, 20));
    assert(other.subrange(28, 48) =~= buf.subrange(28, 48));
    assert(other.subrange(48, 68) =~= buf.subrange(48, 68));
}

/// A 68-byte handshake is accepted exactly when its length byte is 19, the
/// protocol name follows, and bytes 28 to 48 are our info hash, whatever else
/// it holds; the peer's id is then its last 20 bytes. A refusal names the
/// first of these three that fails.
pub proof fn law_handshake_accepts(buf: Seq<u8>, info_hash: Seq<u8>)
    requires
        buf.len() == HANDSHAKE_SIZE,
    ensures
        (handshake_check(buf, info_hash) is Ok) <==> (buf[0] == 19 && buf.subrange(1, 20)
            == seq![66u8, 105, 116, 84, 111, 114, 114, 101, 110, 116, 32, 112, 114, 111, 116, 111, 99, 111, 108]
            && buf.subrange(28, 48) == info_hash),
        handshake_check(buf, info_hash) is Ok ==> handshake_check(buf, info_hash)->Ok_0 == buf.subrange(
            48,
            68,
        ) && handshake_check(buf, info_hash)->Ok_0.len() == 20,
        buf[0] != 19 ==> handshake_check(buf, info_hash) == Err::<Seq<u8>, HandshakeError>(
            HandshakeError::InvalidPstrlen,
        ),
        buf[0] == 19 && buf.subrange(1, 20) != protocol_name() ==> handshake_check(buf, info_hash)
            == Err::<Seq<u8>, HandshakeError>(HandshakeError::InvalidPstr),
        buf[0] == 19 && buf.subrange(1, 20) == protocol_name() && buf.subrange(28, 48) != info_hash
            ==> handshake_check(buf, info_hash) == Err::<Seq<u8>, HandshakeError>(
            HandshakeError::InfoHashMismatch,
        ),
{
}

/// A handshake built for an info hash passes the check for that info hash,
/// which then gives the id it was built with; with another 20-byte info hash
/// it is refused.
pub proof fn law_handshake_roundtrip(info_hash: Seq<u8>, peer_id: Seq<u8>, other: Seq<u8>)
    requires
        info_hash.len() == 20,
        peer_id.len() == 20,
        other.len() == 20,
    ensures
        handshake_bytes(info_hash, peer_id).len() == HANDSHAKE_SIZE,
        handshake_check(handshake_bytes(info_hash, peer_id), info_hash) == Ok::<
            Seq<u8>,
            HandshakeError,
        >(peer_id),
        other != info_hash ==> handshake_check(handshake_bytes(info_hash, peer_id), other) == Err::<
            Seq<u8>,
            HandshakeError,
        >(HandshakeError::InfoHashMismatch),
{
    let h = handshake_bytes(info_hash, peer_id);
    assert(h.subrange(1, 20) =~= protocol_name());
    assert(h.subrange(28, 48) =~= info_hash);
    assert(h.subrange(48, 68) =~= peer_id);
}

/// The addresses of a compact peer list: six bytes per peer, an IPv4
/// address and a port, both big-endian; a shorter tail is ignored.
pub open spec fn compact_addrs(bytes: Seq<u8>) -> Seq<PeerAddr> {
    Seq::new(
        bytes.len() / 6,
        |i: int|
            PeerAddr::V4 {
                ip4: ((bytes[6 * i] as u32) << 24u32) | ((bytes[6 * i + 1] as u32) << 16u32) | ((
                bytes[6 * i + 2] as u32) << 8u32) | (bytes[6 * i + 3] as u32),
                port: ((bytes[6 * i + 4] as u16) << 8u16) | (bytes[6 * i + 5] as u16),
            },
    )
}

impl Peer {
    /// The peer addresses of a compact peer list, as trackers send it.
    pub fn new_from_bytes(bytes: &[u8]) -> (r: Vec<PeerAddr>)
        ensures
            r@ == compact_addrs(bytes@),
    {
        let n = bytes.len() / 6;
        let mut addrs: Vec<PeerAddr> = Vec::new();
        let mut i: usize = 0;
        while i < n
            invariant
                n == bytes.len() / 6,
                0 <= i <= n,
                addrs@ == compact_addrs(bytes@).take(i as int),
            decreases n - i,
        {
            let at = 6 * i;
            assert(at + 6 <= bytes.len()) by (nonlinear_arith)
                requires
                    at == 6 * i,
                    i < n,
                    n == bytes.len() / 6,
            ;
            let ip4 = ((bytes[at] as u32) << 24u32) | ((bytes[at + 1] as u32) << 16u32) | ((bytes[at
                + 2] as u32) << 8u32) | (bytes[at + 3] as u32);
            let port = ((bytes[at + 4] as u16) << 8u16) | (bytes[at + 5] as u16);
            addrs.push(PeerAddr::V4 { ip4, port });
            i = i + 1;
            assert(addrs@ =~= compact_addrs(bytes@).take(i as int));
        }
        assert(compact_addrs(bytes@).take(n as int) =~= compact_addrs(bytes@));
        addrs
    }
}

} // verus!
