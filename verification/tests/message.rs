use bittorrent::message::{Message, MessageError};

fn roundtrip(m: Message) -> Message {
    let e = m.encode();
    let len = Message::frame_length(&e[0..4]) as usize;
    assert_eq!(len, e.len() - 4);
    let body = &e[4..];
    assert!(!Message::is_malformed(body));
    Message::decode_frame(body).expect("decodes")
}

#[test]
fn encodes_fixed_layouts() {
    assert_eq!(Message::KeepAlive.encode(), vec![0, 0, 0, 0]);
    assert_eq!(Message::Choke.encode(), vec![0, 0, 0, 1, 0]);
    assert_eq!(Message::Unchoke.encode(), vec![0, 0, 0, 1, 1]);
    assert_eq!(Message::Interested.encode(), vec![0, 0, 0, 1, 2]);
    assert_eq!(Message::NotInterested.encode(), vec![0, 0, 0, 1, 3]);
    assert_eq!(Message::Have(0x01020304).encode(), vec![0, 0, 0, 5, 4, 1, 2, 3, 4]);
    assert_eq!(
        Message::Bitfield(vec![0xff, 0x01]).encode(),
        vec![0, 0, 0, 3, 5, 0xff, 0x01]
    );
    assert_eq!(
        Message::Request { index: 1, begin: 2, length: 16384 }.encode(),
        vec![0, 0, 0, 13, 6, 0, 0, 0, 1, 0, 0, 0, 2, 0, 0, 0x40, 0]
    );
    assert_eq!(
        Message::Piece { index: 7, begin: 8, block: vec![9, 9] }.encode(),
        vec![0, 0, 0, 11, 7, 0, 0, 0, 7, 0, 0, 0, 8, 9, 9]
    );
    assert_eq!(
        Message::Cancel { index: 0, begin: 0, length: 1 }.encode(),
        vec![0, 0, 0, 13, 8, 0, 0, 0, 0, 0, 0, 0, 0, 0, 0, 0, 1]
    );
}

#[test]
fn messages_read_back() {
    assert!(matches!(roundtrip(Message::KeepAlive), Message::KeepAlive));
    assert!(matches!(roundtrip(Message::Choke), Message::Choke));
    assert!(matches!(roundtrip(Message::Unchoke), Message::Unchoke));
    assert!(matches!(roundtrip(Message::Interested), Message::Interested));
    assert!(matches!(roundtrip(Message::NotInterested), Message::NotInterested));
    assert!(matches!(roundtrip(Message::Have(77)), Message::Have(77)));
    match roundtrip(Message::Bitfield(vec![1, 2, 3])) {
        Message::Bitfield(b) => assert_eq!(b, vec![1, 2, 3]),
        other => panic!("{:?}", other),
    }
    assert!(matches!(
        roundtrip(Message::Request { index: 5, begin: 6, length: 7 }),
        Message::Request { index: 5, begin: 6, length: 7 }
    ));
    match roundtrip(Message::Piece { index: 1, begin: 2, block: vec![3, 4, 5] }) {
        Message::Piece { index, begin, block } => {
            assert_eq!((index, begin), (1, 2));
            assert_eq!(block, vec![3, 4, 5]);
        }
        other => panic!("{:?}", other),
    }
    assert!(matches!(
        roundtrip(Message::Cancel { index: u32::MAX, begin: 0, length: 3 }),
        Message::Cancel { index: u32::MAX, begin: 0, length: 3 }
    ));
}

#[test]
fn decode_errors() {
    assert_eq!(Message::decode(&[]).unwrap_err(), MessageError::IdMissing);
    assert_eq!(Message::decode(&[9]).unwrap_err(), MessageError::InvalidId);
    assert_eq!(Message::decode(&[200, 1, 2]).unwrap_err(), MessageError::InvalidId);
}

#[test]
fn request_ignores_extra_bytes_and_piece_may_be_empty() {
    let buf = [6, 0, 0, 0, 1, 0, 0, 0, 2, 0, 0, 0, 3, 99];
    assert!(matches!(
        Message::decode(&buf).unwrap(),
        Message::Request { index: 1, begin: 2, length: 3 }
    ));
    match Message::decode(&[7, 0, 0, 0, 1, 0, 0, 0, 2]).unwrap() {
        Message::Piece { block, .. } => assert!(block.is_empty()),
        other => panic!("{:?}", other),
    }
}

#[test]
fn payloads_the_reader_panics_on() {
    assert!(Message::is_malformed(&[4, 0, 0, 1]));
    assert!(Message::is_malformed(&[4, 0, 0, 0, 1, 2]));
    assert!(Message::is_malformed(&[6, 0, 0, 0, 1]));
    assert!(Message::is_malformed(&[8; 12]));
    assert!(Message::is_malformed(&[7, 1, 2, 3]));
    assert!(!Message::is_malformed(&[4, 0, 0, 0, 1]));
    assert!(!Message::is_malformed(&[]));
    assert!(!Message::is_malformed(&[0, 5, 5]));
}

#[test]
fn body_without_prefix_decodes_to_the_message() {
    let e = Message::Have(3).encode();
    assert!(matches!(Message::decode(&e[4..]), Ok(Message::Have(3))));
    let e = Message::Piece { index: 9, begin: 16384, block: vec![0xab; 5] }.encode();
    match Message::decode(&e[4..]) {
        Ok(Message::Piece { index, begin, block }) => {
            assert_eq!((index, begin), (9, 16384));
            assert_eq!(block, vec![0xab; 5]);
        }
        other => panic!("{:?}", other),
    }
}
