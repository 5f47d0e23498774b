use bittorrent::peer::BitField;
use bittorrent::piece_assembler::PieceAssembler;
use bittorrent::piece_picker::{PieceEvent, PiecePicker, PieceState};

#[test]
fn claims_first_missing_piece_the_peer_has() {
    let mut picker = PiecePicker::new(4);
    let bf = BitField::new(vec![0b0110_0000], 4);
    assert_eq!(picker.claim_piece(&bf), Some(1));
    assert_eq!(picker.state(1), PieceState::InProgress);
    assert_eq!(picker.claim_piece(&bf), Some(2));
    assert_eq!(picker.claim_piece(&bf), None);
    assert_eq!(picker.state(0), PieceState::Missing);
}

#[test]
fn completion_and_failure() {
    let mut picker = PiecePicker::new(2);
    let all = BitField::new(vec![0xff], 2);
    let a = picker.claim_piece(&all).unwrap();
    let b = picker.claim_piece(&all).unwrap();
    picker.mark_as_failed(a);
    assert_eq!(picker.state(a), PieceState::Missing);
    assert_eq!(picker.claim_piece(&all), Some(a));
    picker.mark_as_completed(a);
    picker.mark_as_completed(a);
    assert_eq!(picker.completed(), 1);
    assert!(!picker.is_finished());
    picker.mark_as_failed(a);
    assert_eq!(picker.state(a), PieceState::Completed);
    picker.mark_as_completed(b);
    assert_eq!(picker.completed(), 2);
    assert!(picker.is_finished());
}

#[test]
fn events_drive_the_picker() {
    let mut picker = PiecePicker::new(2);
    let all = BitField::new(vec![0xff], 2);
    picker.claim_piece(&all);
    picker.claim_piece(&all);
    assert!(!picker.handle_event(PieceEvent::HashMismatch { piece_index: 0 }));
    assert_eq!(picker.state(0), PieceState::Missing);
    assert!(!picker.handle_event(PieceEvent::Completed { piece_index: 1 }));
    assert!(!picker.handle_event(PieceEvent::DownloadFailed { piece_index: 1 }));
    assert_eq!(picker.state(1), PieceState::Completed);
    picker.claim_piece(&all);
    assert!(picker.handle_event(PieceEvent::Completed { piece_index: 0 }));
}

#[test]
fn empty_torrent_is_finished() {
    let picker = PiecePicker::new(0);
    assert!(picker.is_finished());
    assert_eq!(picker.completed(), 0);
}

#[test]
fn assembler_flags_a_piece_whose_digest_differs() {
    // SHA-1 of "abc"
    let abc: [u8; 20] = [
        0xa9, 0x99, 0x3e, 0x36, 0x47, 0x06, 0x81, 0x6a, 0xba, 0x3e, 0x25, 0x71, 0x78, 0x50, 0xc2,
        0x6c, 0x9c, 0xd0, 0xd8, 0x9d,
    ];
    let assembler = PieceAssembler::new(vec![abc]);
    assert!(!assembler.verify_piece(0, b"abc"));
    assert!(assembler.verify_piece(0, b"abd"));
}

#[test]
fn a_claimed_piece_comes_back_only_after_a_failure() {
    let mut picker = PiecePicker::new(3);
    let all = BitField::new(vec![0xff], 3);
    let only_first = BitField::new(vec![0b1000_0000], 3);
    assert_eq!(picker.claim_piece(&all), Some(0));
    assert_eq!(picker.claim_piece(&only_first), None);
    assert!(!picker.handle_event(PieceEvent::Completed { piece_index: 2 }));
    assert_eq!(picker.claim_piece(&all), Some(1));
    assert_eq!(picker.claim_piece(&only_first), None);
    assert!(!picker.handle_event(PieceEvent::DownloadFailed { piece_index: 0 }));
    assert_eq!(picker.claim_piece(&only_first), Some(0));
}

#[test]
fn a_finished_picker_stays_finished() {
    let mut picker = PiecePicker::new(1);
    let all = BitField::new(vec![0xff], 1);
    assert_eq!(picker.claim_piece(&all), Some(0));
    assert!(picker.handle_event(PieceEvent::Completed { piece_index: 0 }));
    assert_eq!(picker.claim_piece(&all), None);
    assert!(!picker.handle_event(PieceEvent::HashMismatch { piece_index: 0 }));
    assert!(picker.handle_event(PieceEvent::Completed { piece_index: 0 }));
    assert!(picker.is_finished());
    assert_eq!(picker.completed(), 1);
}
