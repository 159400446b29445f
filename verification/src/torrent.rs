//! The torrent aggregate: one descriptor, its content id, the local bit
//! field, the piece store, the peer sessions, all composed into one
//! download.
use vstd::prelude::*;

use crate::bitfield::{count_true, BitField};
use crate::errors::DescriptorError;
use crate::hashing::{hex_of, sha1_of};
use crate::meta_info::{enc_info, valid_info, Info, MetaInfo};
use crate::peer::PeerWire;
use crate::piece::{spec_num_pieces, spec_piece_digest, spec_piece_len, PieceStore};

verus! {

/// One running download: descriptor, content id, local possession record,
/// per-piece assembly state, and the peer sessions.
pub struct Torrent {
    pub info_hash: String,
    pub meta_info: MetaInfo,
    pub inserted_at: Option<u64>,
    pub pieces_bitfield: BitField,
    pub peers: Vec<PeerWire>,
    pub store: PieceStore,
}

impl Torrent {
    /// Builds the aggregate for one descriptor. A descriptor that breaks
    /// the structural invariants, or whose sizes do not fit the per-piece
    /// buffers, is refused and the torrent never starts.
    pub fn new(meta_info: MetaInfo) -> (r: Result<Torrent, DescriptorError>)
        ensures
            r is Ok <==> (valid_info(meta_info.info) && meta_info.info.piece_length <= u32::MAX
                && spec_num_pieces(meta_info.info) <= u32::MAX),
            r is Err ==> r == Result::<Torrent, DescriptorError>::Err(
                DescriptorError::InvalidStructure,
            ),
            r matches Ok(t) ==> {
                &&& t.info_hash@ == hex_of(sha1_of(enc_info(meta_info.info)))
                &&& t.meta_info == meta_info
                &&& t.inserted_at is None
                &&& t.pieces_bitfield@ =~= Seq::new(
                    spec_num_pieces(meta_info.info) as nat,
                    |i: int| false,
                )
                &&& t.peers@ == Seq::<PeerWire>::empty()
                &&& t.store@.len() == spec_num_pieces(meta_info.info)
                &&& forall|i: int|
                    0 <= i < t.store@.len() ==> {
                        &&& (#[trigger] t.store@[i]).index == i
                        &&& t.store@[i].length == spec_piece_len(meta_info.info, i)
                        &&& t.store@[i].hash == hex_of(spec_piece_digest(meta_info.info, i))
                        &&& !t.store@[i].is_complete
                    }
            },
    {
        if !meta_info.info.structurally_valid() {
            return Err(DescriptorError::InvalidStructure);
        }
        if meta_info.info.piece_length > (u32::MAX as i64) {
            return Err(DescriptorError::InvalidStructure);
        }
        let n = meta_info.info.pieces.len() / 20;
        if n > (u32::MAX as usize) {
            return Err(DescriptorError::InvalidStructure);
        }
        let info_hash = meta_info.info.to_hash();
        let store = PieceStore::from_info(&meta_info.info);
        let pieces_bitfield = BitField::new(n);
        Ok(
            Torrent {
                info_hash,
                meta_info,
                inserted_at: None,
                pieces_bitfield,
                peers: Vec::new(),
                store,
            },
        )
    }

    /// The content id of this torrent, in lowercase hex.
    pub fn info_hash(&self) -> (r: String)
        ensures
            r@ == hex_of(sha1_of(enc_info(self.meta_info.info))),
    {
        self.meta_info.to_info_hash()
    }

    /// The descriptor.
    pub fn meta_info(&self) -> (r: &MetaInfo)
        ensures
            *r == self.meta_info,
    {
        &self.meta_info
    }

    /// The descriptor's info section.
    pub fn info(&self) -> (r: &Info)
        ensures
            *r == self.meta_info.info,
    {
        &self.meta_info.info
    }

    /// Replaces the descriptor.
    pub fn set_meta_info(&mut self, meta_info: MetaInfo)
        ensures
            final(self).meta_info == meta_info,
            final(self).info_hash == old(self).info_hash,
            final(self).inserted_at == old(self).inserted_at,
            final(self).pieces_bitfield == old(self).pieces_bitfield,
            final(self).peers == old(self).peers,
            final(self).store == old(self).store,
    {
        self.meta_info = meta_info;
    }

    /// When the torrent was added, if recorded.
    pub fn inserted_at(&self) -> (r: Option<u64>)
        ensures
            r == self.inserted_at,
    {
        self.inserted_at
    }

    /// Records when the torrent was added.
    pub fn set_inserted_at(&mut self, inserted_at: u64)
        ensures
            final(self).inserted_at == Some(inserted_at),
            final(self).meta_info == old(self).meta_info,
            final(self).info_hash == old(self).info_hash,
            final(self).pieces_bitfield == old(self).pieces_bitfield,
            final(self).peers == old(self).peers,
            final(self).store == old(self).store,
    {
        self.inserted_at = Some(inserted_at);
    }

    /// How many pieces have been downloaded and verified: always the count
    /// of set bits in the local bit field, never a separate counter.
    pub fn downloaded_pieces(&self) -> (r: u64)
        ensures
            r == count_true(self.pieces_bitfield@),
    {
        self.pieces_bitfield.count_set() as u64
    }
}

} // verus!
