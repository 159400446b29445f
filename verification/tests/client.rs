use riffle::client::TorrentClient;
use riffle::errors::DescriptorError;
use riffle::hashing::sha1_digest;
use riffle::meta_info::{Info, MetaInfo};
use riffle::torrent::Torrent;

fn meta_with_name(name: &[u8]) -> MetaInfo {
    let mut pieces = sha1_digest(&[1u8, 1, 1, 1]);
    pieces.extend_from_slice(&sha1_digest(&[2u8, 2, 2, 2]));
    MetaInfo {
        info: Info {
            name: name.to_vec(),
            pieces,
            piece_length: 4,
            md5sum: None,
            length: Some(8),
            files: None,
            private: None,
            path: None,
            root_hash: None,
        },
        announce: Some(b"http://tracker.example/announce".to_vec()),
        nodes: None,
        encoding: None,
        httpseeds: None,
        announce_list: None,
        creation_date: None,
        comment: None,
        created_by: None,
    }
}

#[test]
fn torrent_new_builds_the_aggregate() {
    let t = Torrent::new(meta_with_name(b"one")).expect("valid descriptor");
    assert_eq!(t.info_hash, t.info_hash());
    assert_eq!(t.pieces_bitfield.len(), 2);
    assert_eq!(t.store.len(), 2);
    assert_eq!(t.downloaded_pieces(), 0);
    assert!(t.inserted_at().is_none());
    assert!(t.peers.is_empty());
}

#[test]
fn invalid_descriptor_never_starts() {
    let mut bad = meta_with_name(b"bad");
    bad.info.piece_length = 0;
    assert!(matches!(Torrent::new(bad), Err(DescriptorError::InvalidStructure)));
}

#[test]
fn timestamps_are_recorded() {
    let mut t = Torrent::new(meta_with_name(b"one")).expect("valid descriptor");
    t.set_inserted_at(12345);
    assert_eq!(t.inserted_at(), Some(12345));
}

#[test]
fn add_torrent_inserts_and_replaces_by_content_id() {
    let mut client = TorrentClient::new();
    client.add_torrent(meta_with_name(b"one")).expect("valid");
    client.add_torrent(meta_with_name(b"two")).expect("valid");
    assert_eq!(client.torrents.len(), 2);
    // the same descriptor again replaces its entry instead of duplicating it
    client.add_torrent(meta_with_name(b"one")).expect("valid");
    assert_eq!(client.torrents.len(), 2);
    let mut bad = meta_with_name(b"three");
    bad.info.pieces.pop();
    assert!(client.add_torrent(bad).is_err());
    assert_eq!(client.torrents.len(), 2);
}
