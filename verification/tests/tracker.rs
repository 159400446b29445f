use riffle::errors::TrackerError;
use riffle::tracker::{
    all_failed, count_successes, decode_compact_peers, parse_ipv4_text, Announce, Peers, Scrape,
    Tracker, TrackerAnnounceResponse, TrackerScrapeResponse,
};
use riffle::utils::IpAddr;

#[test]
fn compact_chunk_decodes_to_address_and_port() {
    let chunk = vec![192u8, 168, 1, 1, 0x1a, 0xe1];
    let peers = decode_compact_peers(&chunk).expect("whole chunk");
    assert_eq!(peers.len(), 1);
    assert!(peers[0].peer_id.is_none());
    match &peers[0].ip {
        IpAddr::V4(q) => assert_eq!(*q, [192u8, 168, 1, 1]),
        _ => panic!("expected a v4 address"),
    }
    assert_eq!(peers[0].port, 6881);
}

#[test]
fn ragged_compact_blob_is_undecodable() {
    let chunk = vec![192u8, 168, 1, 1, 0x1a];
    assert!(matches!(decode_compact_peers(&chunk), Err(TrackerError::Undecodable)));
}

#[test]
fn dotted_quad_classification() {
    assert_eq!(parse_ipv4_text(b"192.168.1.1"), Some([192u8, 168, 1, 1]));
    assert_eq!(parse_ipv4_text(b"0.0.0.0"), Some([0u8, 0, 0, 0]));
    assert_eq!(parse_ipv4_text(b"peer.example"), None);
    assert_eq!(parse_ipv4_text(b"192.168.001.1"), None);
    assert_eq!(parse_ipv4_text(b"300.1.1.1"), None);
}

#[test]
fn announce_with_compact_peers_normalizes() {
    let mut body = b"d8:completei5e10:incompletei3e8:intervali1800e5:peers6:".to_vec();
    body.extend_from_slice(&[10u8, 0, 0, 2, 0x1a, 0xe2]);
    body.push(b'e');
    let resp = Announce::parse_buffer(&body).expect("canonical announce");
    assert_eq!(resp.complete, 5);
    assert_eq!(resp.incomplete, 3);
    assert_eq!(resp.interval, 1800);
    match &resp.peers {
        Peers::PeerStruct(ps) => {
            assert_eq!(ps.len(), 1);
            match &ps[0].ip {
                IpAddr::V4(q) => assert_eq!(*q, [10u8, 0, 0, 2]),
                _ => panic!("expected a v4 address"),
            }
            assert_eq!(ps[0].port, 6882);
        },
        _ => panic!("peer list must be normalized"),
    }
}

#[test]
fn announce_with_dictionary_peers() {
    let body =
        b"d8:completei1e10:incompletei0e8:intervali60e5:peersld2:ip11:192.168.1.14:porti6881eeee"
            .to_vec();
    let resp = Announce::parse_buffer(&body).expect("canonical announce");
    match &resp.peers {
        Peers::PeerStruct(ps) => {
            assert_eq!(ps.len(), 1);
            match &ps[0].ip {
                IpAddr::V4(q) => assert_eq!(*q, [192u8, 168, 1, 1]),
                _ => panic!("expected a v4 address"),
            }
            assert_eq!(ps[0].port, 6881);
        },
        _ => panic!("peer list must be normalized"),
    }
}

#[test]
fn malformed_announce_is_a_typed_failure() {
    let body = b"not bencode at all".to_vec();
    assert!(matches!(Announce::parse_buffer(&body), Err(TrackerError::Undecodable)));
}

#[test]
fn reannounce_interval_uses_min_as_floor() {
    let base = TrackerAnnounceResponse {
        complete: 0,
        downloaded: None,
        incomplete: 0,
        interval: 60,
        peers: Peers::ByteBuf(Vec::new()),
        min_interval: Some(300),
        failure_reason: None,
        tracker_id: None,
        warning_message: None,
    };
    assert_eq!(base.reannounce_interval(), 300);
    let mut no_floor = base;
    no_floor.min_interval = None;
    assert_eq!(no_floor.reannounce_interval(), 60);
    let mut low_floor = no_floor;
    low_floor.min_interval = Some(30);
    assert_eq!(low_floor.reannounce_interval(), 60);
}

#[test]
fn scrape_body_decodes() {
    let mut body = b"d5:filesd20:".to_vec();
    body.extend_from_slice(&[9u8; 20]);
    body.extend_from_slice(b"d8:completei10e10:incompletei2eee");
    body.push(b'e');
    let resp = Scrape::parse_buffer(&body).expect("canonical scrape");
    assert_eq!(resp.files.len(), 1);
    assert_eq!(resp.files[0].0, vec![9u8; 20]);
    assert_eq!(resp.files[0].1.complete, 10);
    assert_eq!(resp.files[0].1.incomplete, 2);
}

fn scrape_result(url: &[u8], response: Result<TrackerScrapeResponse, TrackerError>) -> Scrape {
    Scrape { url: url.to_vec(), at: 0, response }
}

#[test]
fn fan_out_tolerates_partial_failure() {
    let ok_body = b"d5:filesdee".to_vec();
    let ok = Scrape::parse_buffer(&ok_body).expect("canonical scrape");
    let results = vec![
        scrape_result(b"http://a/scrape", Err(TrackerError::Transport)),
        scrape_result(b"http://b/scrape", Err(TrackerError::Transport)),
        scrape_result(b"http://c/scrape", Ok(ok)),
    ];
    assert_eq!(count_successes(&results), 1);
    assert!(!all_failed(&results));
    assert!(results[2].is_ok());
    assert!(results[0].is_err());
}

#[test]
fn fan_out_all_failed_is_the_only_fatal_case() {
    let results = vec![
        scrape_result(b"http://a/scrape", Err(TrackerError::Transport)),
        scrape_result(b"http://b/scrape", Err(TrackerError::BadStatus)),
    ];
    assert_eq!(count_successes(&results), 0);
    assert!(all_failed(&results));
}

#[test]
fn tracker_holds_its_url() {
    let t = Tracker::new(String::from("http://tracker.example/"));
    assert_eq!(t.url, "http://tracker.example/");
}

#[test]
fn announce_tolerates_unknown_keys() {
    // an extra key (an IPv6 peer list) between the known fields
    let mut body = b"d8:completei5e10:incompletei3e8:intervali1800e5:peers6:".to_vec();
    body.extend_from_slice(&[10u8, 0, 0, 2, 0x1a, 0xe2]);
    body.extend_from_slice(b"6:peers60:");
    body.push(b'e');
    let resp = Announce::parse_buffer(&body).expect("tolerant decode");
    assert_eq!(resp.complete, 5);
    assert_eq!(resp.interval, 1800);
    assert!(matches!(resp.peers, Peers::PeerStruct(_)));
}

#[test]
fn announce_tolerates_any_key_order() {
    let mut body = b"d8:intervali60e8:completei1e10:incompletei0e5:peers6:".to_vec();
    body.extend_from_slice(&[10u8, 0, 0, 2, 0x1a, 0xe2]);
    body.push(b'e');
    let resp = Announce::parse_buffer(&body).expect("tolerant decode");
    assert_eq!(resp.interval, 60);
    assert_eq!(resp.complete, 1);
}

#[test]
fn announce_missing_required_field_is_undecodable() {
    // no peers entry at all
    let body = b"d8:completei5e10:incompletei3e8:intervali1800ee".to_vec();
    assert!(matches!(Announce::parse_buffer(&body), Err(TrackerError::Undecodable)));
}

#[test]
fn scrape_tolerates_unknown_keys() {
    let mut body = b"d5:flags20:ABCDEFGHIJKLMNOPQRST5:filesd20:".to_vec();
    body.extend_from_slice(&[9u8; 20]);
    body.extend_from_slice(b"d8:completei10e10:incompletei2eee");
    body.push(b'e');
    let resp = Scrape::parse_buffer(&body).expect("tolerant decode");
    assert_eq!(resp.files.len(), 1);
    assert_eq!(resp.files[0].1.complete, 10);
}
