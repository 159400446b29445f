use riffle::bitfield::BitField;
use riffle::errors::StoreError;
use riffle::hashing::sha1_digest;
use riffle::meta_info::Info;
use riffle::piece::{Block, Piece, PieceStore};
use riffle::piece_picker::blocks_for_piece;

fn two_piece_info() -> Info {
    let mut pieces = sha1_digest(&[1u8, 1, 1, 1]);
    pieces.extend_from_slice(&sha1_digest(&[2u8, 2, 2, 2]));
    Info {
        name: b"sample".to_vec(),
        pieces,
        piece_length: 4,
        md5sum: None,
        length: Some(8),
        files: None,
        private: None,
        path: None,
        root_hash: None,
    }
}

#[test]
fn store_has_one_piece_per_digest() {
    let store = PieceStore::from_info(&two_piece_info());
    assert_eq!(store.len(), 2);
    assert_eq!(store.piece_at(0).index(), 0);
    assert_eq!(store.piece_at(1).index(), 1);
    assert_eq!(store.piece_at(0).length(), 4);
    assert_eq!(store.piece_at(1).length(), 4);
    assert_eq!(store.piece_at(0).hash(), hex::encode(sha1_digest(&[1u8, 1, 1, 1])));
    assert!(!store.piece_at(0).is_complete());
}

#[test]
fn last_piece_may_be_shorter() {
    let mut pieces = sha1_digest(&[1u8, 1, 1, 1]);
    pieces.extend_from_slice(&sha1_digest(&[2u8, 2]));
    let info = Info {
        name: b"uneven".to_vec(),
        pieces,
        piece_length: 4,
        md5sum: None,
        length: Some(6),
        files: None,
        private: None,
        path: None,
        root_hash: None,
    };
    let store = PieceStore::from_info(&info);
    assert_eq!(store.len(), 2);
    assert_eq!(store.piece_at(0).length(), 4);
    assert_eq!(store.piece_at(1).length(), 2);
}

#[test]
fn out_of_range_blocks_are_refused() {
    let mut store = PieceStore::from_info(&two_piece_info());
    assert!(matches!(
        store.apply_block(0, 3, &vec![0u8, 0]),
        Err(StoreError::OutOfRange)
    ));
    assert!(matches!(
        store.apply_block(9, 0, &vec![0u8]),
        Err(StoreError::NoSuchPiece)
    ));
    store.apply_block(0, 2, &vec![0u8, 0]).expect("in range");
}

#[test]
fn fully_received_needs_every_byte() {
    let mut store = PieceStore::from_info(&two_piece_info());
    assert!(!store.is_piece_fully_received(0));
    store.apply_block(0, 0, &vec![1u8, 1]).expect("in range");
    assert!(!store.is_piece_fully_received(0));
    store.apply_block(0, 2, &vec![1u8, 1]).expect("in range");
    assert!(store.is_piece_fully_received(0));
}

#[test]
fn verification_success_sets_the_bit() {
    let mut store = PieceStore::from_info(&two_piece_info());
    let mut local = BitField::new(2);
    store.apply_block(0, 0, &vec![1u8, 1, 1, 1]).expect("in range");
    let ok = store.verify(0, &mut local).expect("piece exists");
    assert!(ok);
    assert!(local.get(0));
    assert!(!local.get(1));
    assert!(store.piece_at(0).is_complete());
}

#[test]
fn verification_failure_discards_and_allows_rerequest() {
    let mut store = PieceStore::from_info(&two_piece_info());
    let mut local = BitField::new(2);
    // wrong content for piece 0
    store.apply_block(0, 0, &vec![9u8, 9, 9, 9]).expect("in range");
    assert!(store.is_piece_fully_received(0));
    let ok = store.verify(0, &mut local).expect("piece exists");
    assert!(!ok);
    // the bit stays unset, the buffer and record are discarded
    assert!(!local.get(0));
    assert!(!store.piece_at(0).is_complete());
    assert!(!store.is_piece_fully_received(0));
    assert_eq!(store.piece_at(0).data(), vec![0u8; 4]);
    // every block of the piece is requestable again
    let again = blocks_for_piece(store.piece_at(0));
    assert_eq!(again.len(), 1);
    assert_eq!(again[0].begin, 0);
    assert_eq!(again[0].length, 4);
}

#[test]
fn verify_rejects_unknown_piece() {
    let mut store = PieceStore::from_info(&two_piece_info());
    let mut local = BitField::new(2);
    assert!(matches!(store.verify(5, &mut local), Err(StoreError::NoSuchPiece)));
}

#[test]
fn piece_accessors_and_blocks() {
    let mut p = Piece::new(3, 4, String::from("00"));
    assert_eq!(p.index(), 3);
    assert_eq!(p.length(), 4);
    assert_eq!(p.hash(), "00");
    assert!(!p.is_complete());
    assert_eq!(p.data(), vec![0u8; 4]);
    p.add_block(Block { piece_index: 3, begin: 0, length: 4, data: vec![1u8; 4] });
    p.set_complete();
    assert!(p.is_complete());
}

#[test]
fn blocks_skip_received_ranges() {
    let mut store = PieceStore::from_info(&two_piece_info());
    store.apply_block(1, 0, &vec![2u8, 2]).expect("in range");
    let blocks = blocks_for_piece(store.piece_at(1));
    // the piece is one block long and still has unreceived bytes
    assert_eq!(blocks.len(), 1);
    store.apply_block(1, 2, &vec![2u8, 2]).expect("in range");
    let blocks = blocks_for_piece(store.piece_at(1));
    assert!(blocks.is_empty());
}

#[test]
fn zero_length_content_has_no_pieces() {
    let info = Info {
        name: b"empty".to_vec(),
        pieces: Vec::new(),
        piece_length: 4,
        md5sum: None,
        length: Some(0),
        files: None,
        private: None,
        path: None,
        root_hash: None,
    };
    assert!(info.structurally_valid());
    let store = PieceStore::from_info(&info);
    assert_eq!(store.len(), 0);
}
