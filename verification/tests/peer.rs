use bittorrent::message::Message;
use bittorrent::peer::{
    build_handshake, BitField, HandshakeError, InitialMessageOutcome, Peer, PeerAddr,
};

fn addr() -> PeerAddr {
    PeerAddr::V4 { ip4: 0x7f000001, port: 6881 }
}

#[test]
fn bitfield_reads_high_bit_first() {
    let bf = BitField::new(vec![0b1010_0000, 0b0000_0001], 16);
    assert!(bf.has_piece(0));
    assert!(!bf.has_piece(1));
    assert!(bf.has_piece(2));
    assert!(!bf.has_piece(7));
    assert!(bf.has_piece(15));
    assert!(!bf.has_piece(16));
    let short = BitField::new(vec![0xff], 4);
    assert!(short.has_piece(3));
    assert!(!short.has_piece(4));
    assert!(!short.has_piece(100));
}

#[test]
fn new_peer_state() {
    let p = Peer::new(addr());
    assert_eq!(p.addr(), addr());
    assert!(p.chocked());
    assert!(!p.interested());
    assert!(!p.has_bitfield());
    assert_eq!(p.peer_id(), [0u8; 20]);
}

#[test]
fn set_bitfield_records_it() {
    let mut p = Peer::new(addr());
    p.set_bitfield(BitField::new(vec![0x80], 1));
    assert!(p.has_bitfield());
}

#[test]
fn first_messages() {
    let mut p = Peer::new(addr());
    assert_eq!(p.apply_initial_message(&Message::KeepAlive, 8), InitialMessageOutcome::Ignored);
    assert_eq!(
        p.apply_initial_message(&Message::Unchoke, 8),
        InitialMessageOutcome::Recorded { done: false }
    );
    assert!(!p.chocked());
    assert_eq!(
        p.apply_initial_message(&Message::Bitfield(vec![0xff]), 8),
        InitialMessageOutcome::Recorded { done: true }
    );
    match p.bitfield() {
        Some(b) => {
            assert_eq!(b.bytes, vec![0xff]);
            assert_eq!(b.num_pieces, 8);
        }
        None => panic!("no bitfield"),
    }
    assert_eq!(p.apply_initial_message(&Message::Choke, 8), InitialMessageOutcome::Ended);
}

#[test]
fn handshake_layout_and_check() {
    let info_hash = [7u8; 20];
    let id = [9u8; 20];
    let h = build_handshake(&info_hash, &id);
    assert_eq!(h.len(), 68);
    assert_eq!(h[0], 19);
    assert_eq!(&h[1..20], b"BitTorrent protocol");
    assert_eq!(&h[20..28], &[0u8; 8]);
    assert_eq!(&h[28..48], &info_hash);
    assert_eq!(&h[48..68], &id);

    let mut p = Peer::new(addr());
    assert_eq!(p.accept_handshake(&h, &info_hash), Ok(()));
    assert_eq!(p.peer_id(), id);

    let mut q = Peer::new(addr());
    assert_eq!(q.accept_handshake(&h, &[8u8; 20]), Err(HandshakeError::InfoHashMismatch));
    assert_eq!(q.peer_id(), [0u8; 20]);

    let mut bad = h.clone();
    bad[0] = 18;
    assert_eq!(q.accept_handshake(&bad, &info_hash), Err(HandshakeError::InvalidPstrlen));
    let mut bad = h.clone();
    bad[5] = b'x';
    assert_eq!(q.accept_handshake(&bad, &info_hash), Err(HandshakeError::InvalidPstr));
}

#[test]
fn compact_peer_list() {
    let addrs = Peer::new_from_bytes(&[10, 0, 0, 1, 0x1a, 0xe1, 192, 168, 1, 2, 0, 80, 1, 2]);
    assert_eq!(
        addrs,
        vec![
            PeerAddr::V4 { ip4: 0x0a000001, port: 6881 },
            PeerAddr::V4 { ip4: 0xc0a80102, port: 80 },
        ]
    );
    assert!(Peer::new_from_bytes(&[1, 2, 3]).is_empty());
}
