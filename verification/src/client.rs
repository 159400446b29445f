//! The client: the per-process table of torrents, one per content id.
use vstd::prelude::*;

use crate::errors::DescriptorError;
use crate::hashing::{hex_of, sha1_of};
use crate::meta_info::{enc_info, valid_info, MetaInfo};
use crate::piece::spec_num_pieces;
use crate::torrent::Torrent;

verus! {

/// No two torrents of the table share a content id.
pub open spec fn distinct_hashes(ts: Seq<Torrent>) -> bool {
    forall|i: int, j: int|
        0 <= i < j < ts.len() ==> (#[trigger] ts[i]).info_hash@ != (#[trigger] ts[j]).info_hash@
}

/// The torrent table, keyed by content id: adding a descriptor whose id is
/// already present replaces that entry.
pub struct TorrentClient {
    pub torrents: Vec<Torrent>,
}

impl TorrentClient {
    /// An empty client.
    pub fn new() -> (r: Self)
        ensures
            r.torrents@ == Seq::<Torrent>::empty(),
    {
        Self { torrents: Vec::new() }
    }

    /// Adds a descriptor as a torrent. A structurally invalid descriptor is
    /// refused and the table is unchanged; a valid one is inserted, keyed by
    /// its content id, replacing any torrent already under that id.
    pub fn add_torrent(self: &mut TorrentClient, meta_info: MetaInfo) -> (r: Result<
        (),
        DescriptorError,
    >)
        requires
            distinct_hashes(old(self).torrents@),
        ensures
            r is Ok <==> (valid_info(meta_info.info) && meta_info.info.piece_length <= u32::MAX
                && spec_num_pieces(meta_info.info) <= u32::MAX),
            r is Err ==> r == Result::<(), DescriptorError>::Err(DescriptorError::InvalidStructure)
                && final(self).torrents@ == old(self).torrents@,
            distinct_hashes(final(self).torrents@),
            r is Ok && (forall|j: int|
                0 <= j < old(self).torrents@.len() ==> (#[trigger] old(self).torrents@[
                j]).info_hash@ != hex_of(sha1_of(enc_info(meta_info.info)))) ==> {
                &&& final(self).torrents@.len() == old(self).torrents@.len() + 1
                &&& final(self).torrents@.subrange(0, old(self).torrents@.len() as int) == old(self).torrents@
                &&& final(self).torrents@.last().info_hash@ == hex_of(
                    sha1_of(enc_info(meta_info.info)),
                )
                &&& final(self).torrents@.last().meta_info == meta_info
            },
            r is Ok && (exists|j: int|
                0 <= j < old(self).torrents@.len() && (#[trigger] old(self).torrents@[
                j]).info_hash@ == hex_of(sha1_of(enc_info(meta_info.info)))) ==> {
                &&& final(self).torrents@.len() == old(self).torrents@.len()
                &&& exists|j: int|
                    {
                        &&& 0 <= j < old(self).torrents@.len()
                        &&& (#[trigger] old(self).torrents@[j]).info_hash@ == hex_of(
                            sha1_of(enc_info(meta_info.info)),
                        )
                        &&& (forall|i: int|
                            0 <= i < old(self).torrents@.len() && i != j ==> final(self).torrents@[i] == old(self).torrents@[i])
                        &&& final(self).torrents@[j].info_hash@ == hex_of(
                            sha1_of(enc_info(meta_info.info)),
                        )
                        &&& final(self).torrents@[j].meta_info == meta_info
                    }
            },
    {
        let torrent = match Torrent::new(meta_info) {
            Err(e) => {
                return Err(e);
            },
            Ok(t) => t,
        };
        let n = self.torrents.len();
        let mut k: usize = 0;
        while k < n
            invariant
                k <= n,
                n == self.torrents@.len(),
                valid_info(meta_info.info),
                meta_info.info.piece_length <= u32::MAX,
                spec_num_pieces(meta_info.info) <= u32::MAX,
                torrent.meta_info == meta_info,
                torrent.info_hash@ == hex_of(sha1_of(enc_info(meta_info.info))),
                self.torrents@ == old(self).torrents@,
                distinct_hashes(self.torrents@),
                forall|j: int|
                    0 <= j < k ==> (#[trigger] self.torrents@[j]).info_hash@ != torrent.info_hash@,
            decreases n - k,
        {
            if self.torrents[k].info_hash == torrent.info_hash {
                let ghost prev = self.torrents@;
                proof {
                    assert(prev[k as int].info_hash@ == torrent.info_hash@);
                }
                self.torrents[k] = torrent;
                proof {
                    assert(self.torrents@[k as int] == torrent);
                    assert forall|i: int, j: int|
                        0 <= i < j < self.torrents@.len() implies (#[trigger] self.torrents@[
                    i]).info_hash@ != (#[trigger] self.torrents@[j]).info_hash@ by {
                        assert(prev[i].info_hash@ != prev[j].info_hash@);
                        if i == k as int {
                            assert(prev[k as int].info_hash@ != prev[j].info_hash@);
                        } else if j == k as int {
                            assert(prev[i].info_hash@ != prev[k as int].info_hash@);
                        }
                    }
                }
                return Ok(());
            }
            k = k + 1;
        }
        let ghost prev = self.torrents@;
        self.torrents.push(torrent);
        proof {
            assert(self.torrents@[self.torrents@.len() - 1] == torrent);
            assert(self.torrents@.subrange(0, prev.len() as int) =~= prev);
            assert forall|i: int, j: int|
                0 <= i < j < self.torrents@.len() implies (#[trigger] self.torrents@[
            i]).info_hash@ != (#[trigger] self.torrents@[j]).info_hash@ by {
                if j == self.torrents@.len() - 1 {
                    assert(prev[i].info_hash@ != torrent.info_hash@);
                } else {
                    assert(prev[i].info_hash@ != prev[j].info_hash@);
                }
            }
        }
        Ok(())
    }
}

} // verus!
