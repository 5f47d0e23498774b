use bittorrent::bencode::encode::encode_object;
use bittorrent::bencode::object::Object;
use bittorrent::peer::{BitField, PeerAddr};
use bittorrent::torrent::{chunk_array, Field, StoreError, Torrent, TorrentError};
use sha1::Digest;

fn b(s: &str) -> Vec<u8> {
    s.as_bytes().to_vec()
}

fn info(pieces: Vec<u8>) -> Object {
    Object::Dictionary(vec![
        (b("length"), Object::Number(40000)),
        (b("name"), Object::ByteArray(b("file.bin"))),
        (b("piece length"), Object::Number(32768)),
        (b("pieces"), Object::ByteArray(pieces)),
    ])
}

fn metainfo(announce: &str, pieces: Vec<u8>) -> Object {
    Object::Dictionary(vec![
        (b("announce"), Object::ByteArray(b(announce))),
        (
            b("announce-list"),
            Object::List(vec![
                Object::List(vec![Object::ByteArray(b("http://a.example/ann"))]),
                Object::List(vec![
                    Object::ByteArray(b("udp://b.example:80")),
                    Object::ByteArray(b("http://c.example/")),
                ]),
            ]),
        ),
        (b("comment"), Object::ByteArray(b("hello"))),
        (b("created by"), Object::ByteArray(b("maker 1.0"))),
        (b("creation date"), Object::Number(1700000000)),
        (b("info"), info(pieces)),
    ])
}

fn abc_digest() -> [u8; 20] {
    [
        0xa9, 0x99, 0x3e, 0x36, 0x47, 0x06, 0x81, 0x6a, 0xba, 0x3e, 0x25, 0x71, 0x78, 0x50, 0xc2,
        0x6c, 0x9c, 0xd0, 0xd8, 0x9d,
    ]
}

fn two_pieces() -> Vec<u8> {
    let mut p = abc_digest().to_vec();
    p.extend_from_slice(&[1u8; 20]);
    p
}

#[test]
fn reads_metainfo() {
    let t = Torrent::try_from(metainfo("HTTP://Tracker.Example/announce", two_pieces())).unwrap();
    assert_eq!(t.announce().url(), "http://tracker.example/announce");
    let tiers = t.announce_list();
    assert_eq!(tiers.len(), 2);
    assert_eq!(tiers[0][0].url(), "http://a.example/ann");
    assert_eq!(tiers[1][0].url(), "udp://b.example:80");
    assert_eq!(tiers[1][1].url(), "http://c.example/");
    assert_eq!(t.comment(), "hello");
    assert_eq!(t.created_by(), "maker 1.0");
    assert_eq!(t.creation_date(), 1700000000);
    assert_eq!(t.name(), "file.bin");
    assert_eq!(t.length(), 40000);
    assert_eq!(t.piece_length(), 32768);
    assert_eq!(t.pieces().len(), 2);
    assert_eq!(t.pieces()[0], abc_digest());
    assert_eq!(t.pieces()[1], [1u8; 20]);
    assert_eq!(t.downloaded(), 0);
    assert_eq!(t.left(), 40000);
    assert_eq!(t.uploaded(), 0);
    assert!(!t.has_piece(0) && !t.has_piece(1));
    let expected: [u8; 20] = sha1::Sha1::digest(encode_object(&info(two_pieces()))).into();
    assert_eq!(t.info_hash(), &expected);
    assert_ne!(t.info_hash(), &[0u8; 20]);
}

#[test]
fn metainfo_errors() {
    assert_eq!(
        Torrent::try_from(Object::Number(1)).err(),
        Some(TorrentError::NotADictionary)
    );
    assert_eq!(
        Torrent::try_from(metainfo("not a url", two_pieces())).err(),
        Some(TorrentError::InvalidUrl(Field::Announce))
    );
    assert_eq!(
        Torrent::try_from(metainfo("http://x.example/", vec![0u8; 21])).err(),
        Some(TorrentError::PiecesLength)
    );
    let mut m = metainfo("http://x.example/", two_pieces());
    if let Object::Dictionary(d) = &mut m {
        d.remove(2);
    }
    assert_eq!(Torrent::try_from(m).err(), Some(TorrentError::MissingKey(Field::Comment)));
    let mut m = metainfo("http://x.example/", two_pieces());
    if let Object::Dictionary(d) = &mut m {
        d[4].1 = Object::Number(-1);
    }
    assert_eq!(
        Torrent::try_from(m).err(),
        Some(TorrentError::OutOfRange(Field::CreationDate))
    );
    let mut m = metainfo("http://x.example/", two_pieces());
    if let Object::Dictionary(d) = &mut m {
        d[3].1 = Object::ByteArray(vec![0xff, 0xfe]);
    }
    assert_eq!(Torrent::try_from(m).err(), Some(TorrentError::InvalidUtf8(Field::CreatedBy)));
    let mut m = metainfo("http://x.example/", two_pieces());
    if let Object::Dictionary(d) = &mut m {
        d[1].1 = Object::List(vec![Object::Number(3)]);
    }
    assert_eq!(Torrent::try_from(m).err(), Some(TorrentError::WrongType(Field::AnnounceList)));
    let mut m = metainfo("http://x.example/", two_pieces());
    if let Object::Dictionary(d) = &mut m {
        d[1].1 = Object::List(vec![Object::List(vec![Object::ByteArray(b("::"))])]);
    }
    assert_eq!(Torrent::try_from(m).err(), Some(TorrentError::InvalidUrl(Field::AnnounceList)));
}

#[test]
fn chunking() {
    assert_eq!(chunk_array(&[]).unwrap().len(), 0);
    let c = chunk_array(&[5u8; 40]).unwrap();
    assert_eq!(c, vec![[5u8; 20], [5u8; 20]]);
    assert_eq!(chunk_array(&[0u8; 19]).err(), Some(TorrentError::PiecesLength));
}

#[test]
fn picks_and_stores_pieces() {
    let mut t = Torrent::try_from(metainfo("http://x.example/", two_pieces())).unwrap();
    let bf = BitField::new(vec![0b1100_0000], 2);
    assert_eq!(t.pick_piece(&bf), Some(0));
    assert_eq!(t.verify_and_store(0, b"abd"), Err(StoreError::HashMismatch(0)));
    assert_eq!(t.downloaded(), 0);
    assert_eq!(t.verify_and_store(0, b"abc"), Ok(()));
    assert!(t.has_piece(0));
    assert_eq!(t.downloaded(), 3);
    assert_eq!(t.left(), 39997);
    assert_eq!(t.pick_piece(&bf), Some(1));
    let none = BitField::new(vec![0b1000_0000], 2);
    assert_eq!(t.pick_piece(&none), None);
}

#[test]
fn checked_store_counts_what_fits() {
    let mut t = Torrent::try_from(metainfo("http://x.example/", two_pieces())).unwrap();
    assert_eq!(t.try_verify_and_store(1, b"abd"), Some(Err(StoreError::HashMismatch(1))));
    assert_eq!(t.try_verify_and_store(0, b"abc"), Some(Ok(())));
    assert_eq!(t.downloaded(), 3);
    assert!(t.has_piece(0) && !t.has_piece(1));
}

#[test]
fn adds_each_peer_once() {
    let mut t = Torrent::try_from(metainfo("http://x.example/", two_pieces())).unwrap();
    let a = PeerAddr::V4 { ip4: 1, port: 1 };
    let c = PeerAddr::V4 { ip4: 2, port: 1 };
    t.add_peers(vec![a, c, a]);
    t.add_peers(vec![c]);
    let peers = t.take_peers();
    assert_eq!(peers.len(), 2);
    assert_eq!(peers[0].addr(), a);
    assert_eq!(peers[1].addr(), c);
    assert!(peers[0].chocked());
    assert!(t.take_peers().is_empty());
}

#[test]
fn tracker_answer_adds_its_peers() {
    let mut t = Torrent::try_from(metainfo("http://x.example/", two_pieces())).unwrap();
    let list = vec![1u8, 2, 3, 4, 0, 80, 1, 2, 3, 4, 0, 80, 9, 9, 9, 9, 26, 225];
    let answer = Object::Dictionary(vec![
        (b("complete"), Object::Number(5)),
        (b("incomplete"), Object::Number(2)),
        (b("interval"), Object::Number(900)),
        (b("peers"), Object::ByteArray(list.clone())),
    ]);
    let r = t.apply_tracker_answer(&answer).unwrap().unwrap();
    assert_eq!(r.interval, 900);
    assert_eq!(t.announce().interval(), 900);
    let expected = bittorrent::peer::Peer::new_from_bytes(&list);
    let peers = t.take_peers();
    assert_eq!(peers.len(), 2);
    assert_eq!(peers[0].addr(), expected[0]);
    assert_eq!(peers[1].addr(), expected[2]);
    assert!(t.apply_tracker_answer(&Object::Number(1)).is_none());
    assert_eq!(t.announce().interval(), 900);
}
