use riffle::hashing::sha1_digest;
use riffle::meta_info::{File, Info, MetaInfo};
use sha1::Digest;

fn sample_info() -> Info {
    Info {
        name: b"example".to_vec(),
        pieces: vec![7u8; 40],
        piece_length: 4,
        md5sum: None,
        length: Some(8),
        files: None,
        private: None,
        path: None,
        root_hash: None,
    }
}

fn sample_meta() -> MetaInfo {
    MetaInfo {
        info: sample_info(),
        announce: Some(b"http://tracker.example/announce".to_vec()),
        nodes: None,
        encoding: None,
        httpseeds: None,
        announce_list: Some(vec![
            vec![b"udp://backup.example/announce".to_vec()],
        ]),
        creation_date: Some(1700000000),
        comment: None,
        created_by: None,
    }
}

#[test]
fn info_encoding_is_canonical() {
    let buf = sample_info().to_buffer();
    let expected =
        b"d6:lengthi8e4:name7:example12:piece lengthi4e6:pieces40:".to_vec();
    assert_eq!(&buf[..expected.len()], &expected[..]);
    assert_eq!(*buf.last().unwrap(), b'e');
    assert_eq!(buf.len(), expected.len() + 40 + 1);
}

#[test]
fn canonical_round_trip_preserves_digest() {
    let meta = sample_meta();
    let bytes = meta.to_buffer();
    let decoded = MetaInfo::from_buffer(&bytes).expect("canonical bytes decode");
    let reencoded = decoded.to_buffer();
    assert_eq!(reencoded, bytes);
    assert_eq!(sha1_digest(&reencoded), sha1_digest(&bytes));
    assert_eq!(decoded.info.to_hash_buffer(), meta.info.to_hash_buffer());
}

#[test]
fn non_canonical_bytes_are_rejected() {
    // leading zero in an integer is not minimal decimal
    let bad = b"d4:infod4:name1:x12:piece lengthi04e6:pieces0:ee".to_vec();
    assert!(MetaInfo::from_buffer(&bad).is_err());
    // key out of canonical order
    let bad2 = b"d4:name1:x4:infod4:name1:x12:piece lengthi4e6:pieces0:ee".to_vec();
    assert!(MetaInfo::from_buffer(&bad2).is_err());
}

#[test]
fn content_id_matches_reference_digest() {
    let info = sample_info();
    let buf = info.to_buffer();
    let mut hasher = sha1::Sha1::new();
    hasher.update(&buf);
    let digest = hasher.finalize().to_vec();
    assert_eq!(info.to_hash_buffer(), digest);
    assert_eq!(info.to_hash_hex(), hex::encode(&digest));
    assert_eq!(info.to_hash(), info.to_hash_hex());
}

#[test]
fn url_encoding_escapes_every_byte() {
    let info = sample_info();
    let encoded = info.to_url_encoded();
    assert_eq!(encoded.len(), 60);
    let bytes = encoded.as_bytes();
    let digest = info.to_hash_buffer();
    for k in 0..20 {
        assert_eq!(bytes[3 * k], b'%');
        let hi = bytes[3 * k + 1];
        let lo = bytes[3 * k + 2];
        let val = |c: u8| -> u8 {
            if c.is_ascii_digit() {
                c - b'0'
            } else {
                c - b'A' + 10
            }
        };
        assert_eq!(val(hi) * 16 + val(lo), digest[k]);
    }
}

#[test]
fn tracker_and_scrape_urls() {
    let meta = sample_meta();
    let urls = meta.tracker_urls();
    assert_eq!(urls.len(), 2);
    assert_eq!(urls[0], b"http://tracker.example/".to_vec());
    assert_eq!(urls[1], b"udp://backup.example/".to_vec());

    let scrapes = meta.scrape_urls();
    assert_eq!(scrapes.len(), 2);
    let first = String::from_utf8(scrapes[0].clone()).unwrap();
    assert!(first.starts_with("http://tracker.example/scrape?info_hash=%"));
    let second = String::from_utf8(scrapes[1].clone()).unwrap();
    // the udp hint is normalized to http once
    assert!(second.starts_with("http://backup.example/scrape?info_hash=%"));
}

#[test]
fn structural_validity() {
    let good = sample_info();
    assert!(good.structurally_valid());

    let mut wrong_count = sample_info();
    wrong_count.pieces = vec![7u8; 20];
    assert!(!wrong_count.structurally_valid());

    let mut bad_piece_len = sample_info();
    bad_piece_len.piece_length = 0;
    assert!(!bad_piece_len.structurally_valid());

    let multi = Info {
        name: b"two".to_vec(),
        pieces: vec![1u8; 40],
        piece_length: 4,
        md5sum: None,
        length: None,
        files: Some(vec![
            File { path: vec![b"a".to_vec()], length: 3, md5sum: None },
            File { path: vec![b"b".to_vec()], length: 5, md5sum: None },
        ]),
        private: None,
        path: None,
        root_hash: None,
    };
    assert!(multi.structurally_valid());
}
