//! A verified download engine for the BitTorrent wire protocol: canonical
//! descriptor encoding and the content id derived from it, tracker announce
//! and scrape decoding with compact peer lists, the peer wire handshake and
//! message framing, per-piece assembly with digest verification, and
//! rarest-first block selection with an endgame mode.
pub mod bencode;
pub mod bitfield;
pub mod client;
pub mod errors;
pub mod hashing;
pub mod meta_info;
pub mod peer;
pub mod piece;
pub mod piece_picker;
pub mod torrent;
pub mod tracker;
pub mod utils;
