use riffle::bitfield::BitField;
use riffle::hashing::sha1_digest;
use riffle::meta_info::Info;
use riffle::peer::{Handshake, ParsedMessage, PeerWire};
use riffle::piece::PieceStore;
use riffle::piece_picker::{availability, PiecePicker};
use riffle::tracker::TrackerPeer;
use riffle::utils::IpAddr;

const INFO_HASH: [u8; 20] = [7u8; 20];

fn two_piece_info() -> Info {
    // two pieces of 4 bytes each; digests match the buffers used in tests
    let mut pieces = sha1_digest(&[1u8, 1, 1, 1]);
    pieces.extend_from_slice(&sha1_digest(&[2u8, 2, 2, 2]));
    Info {
        name: b"sample".to_vec(),
        pieces,
        piece_length: 4,
        md5sum: None,
        length: Some(8),
        files: None,
        private: None,
        path: None,
        root_hash: None,
    }
}

fn unchoked_peer_with(bits: u8, num_pieces: usize) -> PeerWire {
    let info = TrackerPeer { peer_id: None, ip: IpAddr::V4([127, 0, 0, 1]), port: 6881 };
    let mut w = PeerWire::new(info, num_pieces, INFO_HASH);
    let _ = w.on_connected([1u8; 20]);
    w.on_handshake(&Handshake::new(INFO_HASH, [2u8; 20])).expect("content id matches");
    w.on_message(ParsedMessage::Bitfield(vec![bits])).expect("first message");
    w.on_message(ParsedMessage::Unchoke).expect("unchoke");
    w
}

#[test]
fn rarest_first_prefers_the_piece_fewer_peers_hold() {
    // one peer advertises pieces {0, 1}, another only {0}; both unchoking
    let peers = vec![unchoked_peer_with(0xc0, 2), unchoked_peer_with(0x80, 2)];
    let local = BitField::new(2);
    let store = PieceStore::from_info(&two_piece_info());
    assert_eq!(availability(&peers, 0), 2);
    assert_eq!(availability(&peers, 1), 1);
    let picker = PiecePicker::new(&peers);
    assert_eq!(picker.pick_rarest(&local, &store), Some(1));
}

#[test]
fn rarest_first_breaks_ties_by_lowest_index() {
    let peers = vec![unchoked_peer_with(0xc0, 2)];
    let local = BitField::new(2);
    let store = PieceStore::from_info(&two_piece_info());
    let picker = PiecePicker::new(&peers);
    assert_eq!(picker.pick_rarest(&local, &store), Some(0));
}

#[test]
fn choking_peers_are_skipped_entirely() {
    let info = TrackerPeer { peer_id: None, ip: IpAddr::V4([127, 0, 0, 1]), port: 6881 };
    let mut choking = PeerWire::new(info, 2, INFO_HASH);
    let _ = choking.on_connected([1u8; 20]);
    choking.on_handshake(&Handshake::new(INFO_HASH, [2u8; 20])).expect("content id matches");
    choking.on_message(ParsedMessage::Bitfield(vec![0xc0])).expect("first message");
    // never unchoked: advertises both pieces but is not eligible
    let peers = vec![choking];
    let local = BitField::new(2);
    let store = PieceStore::from_info(&two_piece_info());
    let picker = PiecePicker::new(&peers);
    assert_eq!(picker.pick_rarest(&local, &store), None);
    assert!(picker.next_requests(&local, &store).is_empty());
}

#[test]
fn locally_held_pieces_are_not_selected() {
    let peers = vec![unchoked_peer_with(0xc0, 2), unchoked_peer_with(0x80, 2)];
    let mut local = BitField::new(2);
    local.set(1);
    let store = PieceStore::from_info(&two_piece_info());
    let picker = PiecePicker::new(&peers);
    assert_eq!(picker.pick_rarest(&local, &store), Some(0));
}

#[test]
fn requests_target_the_rarest_piece_outside_endgame() {
    // three eligible pieces, one eligible peer: 3 > 1, so no endgame
    let mut pieces = sha1_digest(&[1u8, 1, 1, 1]);
    pieces.extend_from_slice(&sha1_digest(&[2u8, 2, 2, 2]));
    pieces.extend_from_slice(&sha1_digest(&[3u8, 3, 3, 3]));
    let info = Info {
        name: b"three".to_vec(),
        pieces,
        piece_length: 4,
        md5sum: None,
        length: Some(12),
        files: None,
        private: None,
        path: None,
        root_hash: None,
    };
    let peers = vec![unchoked_peer_with(0xe0, 3)];
    let local = BitField::new(3);
    let store = PieceStore::from_info(&info);
    let picker = PiecePicker::new(&peers);
    assert!(!picker.endgame_active(&local, &store));
    let plan = picker.next_requests(&local, &store);
    assert_eq!(plan.len(), 1);
    assert_eq!(plan[0].request.index, 0);
    assert_eq!(plan[0].request.begin, 0);
    assert_eq!(plan[0].request.length, 4);
    assert_eq!(plan[0].peer, 0);
}

#[test]
fn endgame_duplicates_blocks_across_peers() {
    // two eligible pieces, two eligible peers: endgame is active, and the
    // same block may be planned for two distinct peers at once
    let peers = vec![unchoked_peer_with(0xc0, 2), unchoked_peer_with(0xc0, 2)];
    let local = BitField::new(2);
    let store = PieceStore::from_info(&two_piece_info());
    let picker = PiecePicker::new(&peers);
    assert!(picker.endgame_active(&local, &store));
    let plan = picker.next_requests(&local, &store);
    let mut duplicated = false;
    for a in 0..plan.len() {
        for b in 0..plan.len() {
            if a != b
                && plan[a].request.index == plan[b].request.index
                && plan[a].request.begin == plan[b].request.begin
                && plan[a].peer != plan[b].peer
            {
                duplicated = true;
            }
        }
    }
    assert!(duplicated);
}

#[test]
fn interest_follows_advertised_needed_pieces() {
    let mut peer = unchoked_peer_with(0x40, 2); // advertises piece 1 only
    let local = BitField::new(2);
    let store = PieceStore::from_info(&two_piece_info());
    let frame =
        riffle::piece_picker::apply_interest_policy(&mut peer, &local, &store).expect("flag flips");
    assert_eq!(frame, vec![0u8, 0, 0, 1, 2]); // interested
    // once piece 1 is held locally the peer offers nothing we need
    let mut local_done = BitField::new(2);
    local_done.set(1);
    let frame = riffle::piece_picker::apply_interest_policy(&mut peer, &local_done, &store)
        .expect("flag flips back");
    assert_eq!(frame, vec![0u8, 0, 0, 1, 3]); // not interested
}
