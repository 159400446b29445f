use riffle::errors::WireError;
use riffle::peer::{
    parse_frame, Handshake, ParsedMessage, PeerWire, SessionState, MAX_OUTSTANDING, PROTOCOL,
};
use riffle::tracker::TrackerPeer;
use riffle::utils::IpAddr;

fn sample_peer() -> TrackerPeer {
    TrackerPeer { peer_id: None, ip: IpAddr::V4([127, 0, 0, 1]), port: 6881 }
}

fn established(num_pieces: usize, info_hash: [u8; 20]) -> PeerWire {
    let mut w = PeerWire::new(sample_peer(), num_pieces, info_hash);
    let hs = w.on_connected([1u8; 20]);
    assert_eq!(hs.len(), 68);
    let remote = Handshake::new(info_hash, [2u8; 20]);
    w.on_handshake(&remote).expect("matching content id");
    assert!(matches!(w.state(), SessionState::Established));
    w
}

#[test]
fn handshake_round_trip() {
    let h = Handshake::new([3u8; 20], [4u8; 20]);
    let bytes = h.encode();
    assert_eq!(bytes.len(), 68);
    assert_eq!(bytes[0], 19);
    assert_eq!(&bytes[1..20], &PROTOCOL[..]);
    let parsed = Handshake::parse(&bytes).expect("well-formed");
    assert_eq!(parsed.info_hash, [3u8; 20]);
    assert_eq!(parsed.peer_id, [4u8; 20]);
}

#[test]
fn malformed_handshake_is_rejected() {
    assert!(matches!(Handshake::parse(&[0u8; 10]), Err(WireError::MalformedHandshake)));
    let mut bytes = Handshake::new([0u8; 20], [0u8; 20]).encode();
    bytes[1] = b'X';
    assert!(matches!(Handshake::parse(&bytes), Err(WireError::MalformedHandshake)));
}

#[test]
fn content_id_mismatch_is_fatal() {
    let mut w = PeerWire::new(sample_peer(), 4, [7u8; 20]);
    let _ = w.on_connected([1u8; 20]);
    let remote = Handshake::new([8u8; 20], [2u8; 20]);
    assert!(matches!(w.on_handshake(&remote), Err(WireError::ContentIdMismatch)));
    assert!(matches!(w.state(), SessionState::Closed));
}

#[test]
fn frames_encode_and_parse_back() {
    let cases = vec![
        ParsedMessage::KeepAlive,
        ParsedMessage::Choke,
        ParsedMessage::Unchoke,
        ParsedMessage::Interested,
        ParsedMessage::NotInterested,
        ParsedMessage::Have(7),
        ParsedMessage::Bitfield(vec![0xa0u8]),
        ParsedMessage::Request(1, 16384, 16384),
        ParsedMessage::Piece(1, 0, vec![1u8, 2, 3]),
        ParsedMessage::Cancel(1, 16384, 16384),
        ParsedMessage::Port(6881),
    ];
    for m in &cases {
        let bytes = riffle::peer::encode_message(m);
        let parsed = parse_frame(&bytes, 0).expect("legal frame").expect("whole frame");
        assert_eq!(parsed.1, bytes.len());
        let again = riffle::peer::encode_message(&parsed.0);
        assert_eq!(again, bytes);
    }
}

#[test]
fn choke_frame_bytes_are_exact() {
    let bytes = riffle::peer::encode_message(&ParsedMessage::Choke);
    assert_eq!(bytes, vec![0u8, 0, 0, 1, 0]);
    let keepalive = riffle::peer::encode_message(&ParsedMessage::KeepAlive);
    assert_eq!(keepalive, vec![0u8, 0, 0, 0]);
}

#[test]
fn unknown_id_and_bad_lengths_are_framing_errors() {
    assert!(matches!(
        parse_frame(&[0u8, 0, 0, 1, 200], 0),
        Err(WireError::UnknownMessageId)
    ));
    assert!(matches!(
        parse_frame(&[0u8, 0, 0, 2, 0, 0], 0),
        Err(WireError::MalformedFrame)
    ));
    // a short buffer is not an error, just incomplete
    assert!(matches!(parse_frame(&[0u8, 0, 0], 0), Ok(None)));
    assert!(matches!(parse_frame(&[0u8, 0, 0, 9, 4], 0), Ok(None)));
}

#[test]
fn choke_cancels_every_outstanding_request() {
    let mut w = established(4, [7u8; 20]);
    w.on_message(ParsedMessage::Bitfield(vec![0xf0u8])).expect("first message");
    w.on_message(ParsedMessage::Unchoke).expect("unchoke");
    assert!(w.send_request(0, 0, 16384).is_some());
    assert!(w.send_request(1, 0, 16384).is_some());
    assert_eq!(w.outstanding().len(), 2);
    w.on_message(ParsedMessage::Choke).expect("choke");
    assert_eq!(w.outstanding().len(), 0);
    assert!(w.peer_choking());
}

#[test]
fn flags_start_choked_and_not_interested() {
    let w = established(4, [7u8; 20]);
    assert!(w.peer_choking());
    assert_eq!(w.outstanding().len(), 0);
}

#[test]
fn bitfield_only_legal_first() {
    let mut w = established(4, [7u8; 20]);
    w.on_message(ParsedMessage::Unchoke).expect("unchoke");
    assert!(matches!(
        w.on_message(ParsedMessage::Bitfield(vec![0xf0u8])),
        Err(WireError::MalformedFrame)
    ));
    assert!(matches!(w.state(), SessionState::Closed));
}

#[test]
fn bitfield_length_must_fit_piece_count() {
    let mut w = established(4, [7u8; 20]);
    assert!(matches!(
        w.on_message(ParsedMessage::Bitfield(vec![0xf0u8, 0x00u8])),
        Err(WireError::BadBitfieldLength)
    ));
}

#[test]
fn have_updates_remote_bitfield() {
    let mut w = established(9, [7u8; 20]);
    w.on_message(ParsedMessage::Have(8)).expect("in range");
    assert!(w.peer_bitfield().get(8));
    assert!(!w.peer_bitfield().get(0));
    let mut w2 = established(9, [7u8; 20]);
    assert!(matches!(
        w2.on_message(ParsedMessage::Have(9)),
        Err(WireError::OutOfRangePieceIndex)
    ));
}

#[test]
fn piece_message_yields_block_and_retires_request() {
    let mut w = established(4, [7u8; 20]);
    w.on_message(ParsedMessage::Bitfield(vec![0xf0u8])).expect("first message");
    w.on_message(ParsedMessage::Unchoke).expect("unchoke");
    assert!(w.send_request(2, 0, 4).is_some());
    assert_eq!(w.outstanding().len(), 1);
    let got = w
        .on_message(ParsedMessage::Piece(2, 0, vec![9u8, 9, 9, 9]))
        .expect("in range")
        .expect("a block");
    assert_eq!(got.piece_index, 2);
    assert_eq!(got.begin, 0);
    assert_eq!(got.length, 4);
    assert_eq!(got.data, vec![9u8, 9, 9, 9]);
    assert_eq!(w.outstanding().len(), 0);
}

#[test]
fn pipeline_ceiling_is_enforced() {
    let mut w = established(64, [7u8; 20]);
    let payload = vec![0xffu8; 8];
    w.on_message(ParsedMessage::Bitfield(payload)).expect("first message");
    w.on_message(ParsedMessage::Unchoke).expect("unchoke");
    for i in 0..MAX_OUTSTANDING {
        assert!(w.send_request(i as u32, 0, 16384).is_some());
    }
    assert!(w.send_request(60, 0, 16384).is_none());
}

#[test]
fn interest_changes_emit_frames() {
    let mut w = established(4, [7u8; 20]);
    let frame = w.update_interest(true).expect("flag changed");
    assert_eq!(frame, vec![0u8, 0, 0, 1, 2]);
    assert!(w.update_interest(true).is_none());
    let frame = w.update_interest(false).expect("flag changed");
    assert_eq!(frame, vec![0u8, 0, 0, 1, 3]);
}

#[test]
fn idle_sessions_expire() {
    assert!(riffle::peer::idle_expired(0, 120000));
    assert!(!riffle::peer::idle_expired(1000, 120000));
    assert!(riffle::peer::idle_expired(1000, 121000));
}

#[test]
fn first_delivery_wins_and_duplicates_are_cancelled() {
    let mut w = established(4, [7u8; 20]);
    w.on_message(ParsedMessage::Bitfield(vec![0xf0u8])).expect("first message");
    w.on_message(ParsedMessage::Unchoke).expect("unchoke");
    assert!(w.send_request(2, 0, 4).is_some());
    assert!(w.retire_request(1, 0).is_none());
    let cancel = w.retire_request(2, 0).expect("request was outstanding");
    // cancel: <len=0013><id=8><index=2><begin=0><length=4>
    assert_eq!(
        cancel,
        vec![0u8, 0, 0, 13, 8, 0, 0, 0, 2, 0, 0, 0, 0, 0, 0, 0, 4]
    );
    assert_eq!(w.outstanding().len(), 0);
}
