//! Per-piece assembly: a buffer of the piece's expected length, a record of
//! which bytes have been received, and digest verification against the
//! descriptor's expected digest.
use vstd::prelude::*;

use crate::bitfield::BitField;
use crate::errors::StoreError;
use crate::hashing::{hex_encode, hex_of, sha1_digest, sha1_of};
use crate::meta_info::{
    lemma_files_total_mono, lemma_files_total_take_step, lemma_total_length_nonneg, total_length,
    valid_info, Info,
};
use crate::utils::copy_range;
use vstd::arithmetic::div_mod::{lemma_fundamental_div_mod, lemma_mod_bound};

verus! {

/// `s` with `b` written at `off`.
pub open spec fn overwrite(s: Seq<u8>, off: int, b: Seq<u8>) -> Seq<u8> {
    Seq::new(
        s.len(),
        |i: int|
            if off <= i < off + b.len() {
                b[i - off]
            } else {
                s[i]
            },
    )
}

/// `s` with the range `off..off+n` marked received.
pub open spec fn mark_received(s: Seq<bool>, off: int, n: int) -> Seq<bool> {
    Seq::new(
        s.len(),
        |i: int|
            if off <= i < off + n {
                true
            } else {
                s[i]
            },
    )
}

/// A request/response unit: a sub-range of one piece, with its payload when
/// delivered.
pub struct Block {
    pub piece_index: u32,
    pub begin: u32,
    pub length: u32,
    pub data: Vec<u8>,
}

/// The ghost image of a piece: what its contracts speak of.
pub struct PieceView {
    pub index: u32,
    pub length: u32,
    pub hash: Seq<char>,
    pub is_complete: bool,
    pub data: Seq<u8>,
    pub received: Seq<bool>,
    pub blocks: Seq<Block>,
}


/// Every byte of the range `off..off+len` has been received.
pub open spec fn spec_range_received_full(v: PieceView, off: int, len: int) -> bool {
    forall|k: int| off <= k < off + len ==> 0 <= k < v.received.len() && v.received[k]
}

/// One piece: index, expected digest (lowercase hex), expected length, the
/// assembly buffer, and the received-byte record.
pub struct Piece {
    index: u32,
    blocks: Vec<Block>,
    length: u32,
    hash: String,
    is_complete: bool,
    data: Vec<u8>,
    received: BitField,
}

impl View for Piece {
    type V = PieceView;

    closed spec fn view(&self) -> PieceView {
        PieceView {
            index: self.index,
            length: self.length,
            hash: self.hash@,
            is_complete: self.is_complete,
            data: self.data@,
            received: self.received@,
            blocks: self.blocks@,
        }
    }
}

impl Piece {
    #[verifier::type_invariant]
    spec fn wf(self) -> bool {
        &&& self.data@.len() == self.length
        &&& self.received@.len() == self.length
    }

    /// A fresh piece: zeroed buffer, nothing received, not complete.
    pub fn new(index: u32, length: u32, hash: String) -> (r: Self)
        ensures
            r@.index == index,
            r@.length == length,
            r@.hash == hash@,
            !r@.is_complete,
            r@.data =~= Seq::new(length as nat, |i: int| 0u8),
            r@.received =~= Seq::new(length as nat, |i: int| false),
            r@.blocks =~= Seq::<Block>::empty(),
    {
        let n = length as usize;
        let mut data: Vec<u8> = Vec::new();
        while data.len() < n
            invariant
                data@.len() <= n,
                forall|k: int| 0 <= k < data@.len() ==> data@[k] == 0u8,
            decreases n - data.len(),
        {
            data.push(0u8);
        }
        let received = BitField::new(n);
        let r = Piece { index, blocks: Vec::new(), length, hash, is_complete: false, data, received };
        proof {
            assert(r@.data =~= Seq::new(length as nat, |i: int| 0u8));
            assert(r@.received =~= Seq::new(length as nat, |i: int| false));
        }
        r
    }

    /// Records a delivered block in the piece's block list.
    pub fn add_block(&mut self, block: Block)
        ensures
            final(self)@ == (PieceView { blocks: old(self)@.blocks.push(block), ..old(self)@ }),
    {
        proof {
            use_type_invariant(&*self);
        }
        let mut blocks: Vec<Block> = Vec::new();
        core::mem::swap(&mut blocks, &mut self.blocks);
        blocks.push(block);
        core::mem::swap(&mut blocks, &mut self.blocks);
    }

    /// Whether the piece has been verified complete.
    pub fn is_complete(&self) -> (r: bool)
        ensures
            r == self@.is_complete,
    {
        self.is_complete
    }

    /// Marks the piece complete.
    pub fn set_complete(&mut self)
        ensures
            final(self)@ == (PieceView { is_complete: true, ..old(self)@ }),
    {
        proof {
            use_type_invariant(&*self);
        }
        self.is_complete = true;
    }

    /// A copy of the assembly buffer; its length is the piece's expected
    /// length.
    pub fn data(&self) -> (r: Vec<u8>)
        ensures
            r@ == self@.data,
            r@.len() == self@.length,
    {
        proof {
            use_type_invariant(self);
        }
        let r = self.data.clone();
        proof {
            assert(r@ =~= self@.data);
        }
        r
    }

    /// The piece's index.
    pub fn index(&self) -> (r: u32)
        ensures
            r == self@.index,
    {
        self.index
    }

    /// The piece's expected length in bytes.
    pub fn length(&self) -> (r: u32)
        ensures
            r == self@.length,
    {
        self.length
    }

    /// The expected digest, as lowercase hex.
    pub fn hash(&self) -> (r: String)
        ensures
            r@ == self@.hash,
    {
        self.hash.clone()
    }

    /// Writes a block's bytes into the buffer at `offset` and records the
    /// range as received. A range that falls outside the piece's expected
    /// length is refused and nothing changes.
    pub fn apply_block(&mut self, offset: u32, bytes: &Vec<u8>) -> (r: Result<(), StoreError>)
        ensures
            r is Ok <==> offset + bytes@.len() <= old(self)@.length,
            r is Err ==> r == Result::<(), StoreError>::Err(StoreError::OutOfRange) && final(self)@
                == old(self)@,
            r is Ok ==> final(self)@ == (PieceView {
                data: overwrite(old(self)@.data, offset as int, bytes@),
                received: mark_received(old(self)@.received, offset as int, bytes@.len() as int),
                ..old(self)@
            }),
    {
        proof {
            use_type_invariant(&*self);
        }
        let blen = bytes.len();
        let off = offset as usize;
        if blen > self.data.len() || off > self.data.len() - blen {
            return Err(StoreError::OutOfRange);
        }
        let mut data = self.data.clone();
        let mut received = self.received.clone();
        proof {
            assert(data@ =~= self.data@);
        }
        let mut j: usize = 0;
        while j < blen
            invariant
                j <= blen,
                blen == bytes@.len(),
                off + blen <= data@.len(),
                off + blen <= usize::MAX,
                data@.len() == old(self)@.data.len(),
                forall|i: int|
                    0 <= i < data@.len() ==> data@[i] == (if off <= i < off + j {
                        bytes@[i - off]
                    } else {
                        old(self)@.data[i]
                    }),
            decreases blen - j,
        {
            data[off + j] = bytes[j];
            j = j + 1;
        }
        let mut k: usize = 0;
        while k < blen
            invariant
                k <= blen,
                blen == bytes@.len(),
                off + blen <= received@.len(),
                off + blen <= usize::MAX,
                received@.len() == old(self)@.received.len(),
                forall|i: int|
                    0 <= i < received@.len() ==> received@[i] == (if off <= i < off + k {
                        true
                    } else {
                        old(self)@.received[i]
                    }),
            decreases blen - k,
        {
            received.set(off + k);
            k = k + 1;
        }
        let index = self.index;
        let length = self.length;
        let is_complete = self.is_complete;
        let mut hash = String::new();
        core::mem::swap(&mut hash, &mut self.hash);
        let mut blocks: Vec<Block> = Vec::new();
        core::mem::swap(&mut blocks, &mut self.blocks);
        *self = Piece { index, blocks, length, hash, is_complete, data, received };
        proof {
            assert(self@.data =~= overwrite(old(self)@.data, offset as int, bytes@));
            assert(self@.received =~= mark_received(
                old(self)@.received,
                offset as int,
                bytes@.len() as int,
            ));
        }
        Ok(())
    }

    /// Whether every byte of the piece has been received.
    pub fn is_fully_received(&self) -> (r: bool)
        ensures
            r == (forall|i: int| 0 <= i < self@.received.len() ==> self@.received[i]),
    {
        proof {
            use_type_invariant(self);
        }
        let n = self.received.len();
        let mut i: usize = 0;
        while i < n
            invariant
                i <= n,
                n == self@.received.len(),
                forall|k: int| 0 <= k < i ==> self@.received[k],
            decreases n - i,
        {
            if !self.received.get(i) {
                return false;
            }
            i = i + 1;
        }
        true
    }

    /// Whether every byte of `off..off+len` has been received.
    pub fn range_fully_received(&self, off: u32, len: u32) -> (r: bool)
        requires
            off + len <= self@.length,
        ensures
            r == spec_range_received_full(self@, off as int, len as int),
    {
        proof {
            use_type_invariant(self);
        }
        let end = off + len;
        let mut k = off;
        while k < end
            invariant
                off <= k <= end,
                end == off + len,
                end <= self@.received.len(),
                forall|j: int| off <= j < k ==> 0 <= j < self@.received.len() && self@.received[j],
            decreases end - k,
        {
            if !self.received.get(k as usize) {
                return false;
            }
            k = k + 1;
        }
        true
    }

    /// Verifies the assembled buffer against the expected digest. On a match
    /// the piece is marked complete. On a mismatch the buffer and the
    /// received record are discarded, the block list is cleared, and the
    /// piece stays incomplete, so every block can be requested again.
    pub fn verify(&mut self) -> (r: bool)
        ensures
            r == (hex_of(sha1_of(old(self)@.data)) == old(self)@.hash),
            r ==> final(self)@ == (PieceView { is_complete: true, ..old(self)@ }),
            !r ==> final(self)@ == (PieceView {
                is_complete: false,
                data: Seq::new(old(self)@.length as nat, |i: int| 0u8),
                received: Seq::new(old(self)@.length as nat, |i: int| false),
                blocks: Seq::<Block>::empty(),
                ..old(self)@
            }),
    {
        proof {
            use_type_invariant(&*self);
        }
        let digest = sha1_digest(self.data.as_slice());
        let hex = hex_encode(digest.as_slice());
        if hex == self.hash {
            self.is_complete = true;
            true
        } else {
            let index = self.index;
            let length = self.length;
            let mut hash = String::new();
            core::mem::swap(&mut hash, &mut self.hash);
            let fresh = Piece::new(index, length, hash);
            *self = fresh;
            proof {
                assert(final(self)@.data =~= Seq::new(old(self)@.length as nat, |i: int| 0u8));
            }
            false
        }
    }
}

/// Number of pieces a descriptor describes: one per 20-byte digest.
pub open spec fn spec_num_pieces(info: Info) -> int {
    info.pieces@.len() as int / 20
}

/// Expected length of piece `i`: the descriptor's piece length, except that
/// the last piece holds whatever remains.
pub open spec fn spec_piece_len(info: Info, i: int) -> int {
    if i + 1 < spec_num_pieces(info) {
        info.piece_length as int
    } else {
        total_length(info) - (spec_num_pieces(info) - 1) * (info.piece_length as int)
    }
}

/// Expected digest of piece `i`: the `i`-th 20-byte slice of the digest
/// list.
pub open spec fn spec_piece_digest(info: Info, i: int) -> Seq<u8> {
    info.pieces@.subrange(20 * i, 20 * i + 20)
}

/// For a structurally valid descriptor, every piece length is between 1 and
/// the descriptor's piece length (the last may be shorter), except that a
/// zero-length content has no pieces at all.
pub proof fn lemma_piece_len_bounds(info: Info)
    requires
        valid_info(info),
    ensures
        total_length(info) == 0 ==> spec_num_pieces(info) == 0,
        total_length(info) > 0 ==> spec_num_pieces(info) >= 1,
        forall|i: int|
            0 <= i < spec_num_pieces(info) ==> 1 <= #[trigger] spec_piece_len(info, i)
                <= info.piece_length,
{
    let t = total_length(info);
    let p = info.piece_length as int;
    let n = spec_num_pieces(info);
    let d = t + p - 1;
    lemma_fundamental_div_mod(d, p);
    lemma_mod_bound(d, p);
    lemma_total_length_nonneg(info);
    if t == 0 {
        assert(n == (p - 1) / p);
        assert((p - 1) / p == 0) by (nonlinear_arith)
            requires
                p > 0,
        ;
    } else {
        assert(p * n == d - d % p);
        assert(t - (n - 1) * p == d % p + 1) by (nonlinear_arith)
            requires
                p * n == d - d % p,
                d == t + p - 1,
        ;
        assert(1 <= t - (n - 1) * p <= p);
        assert(n >= 1) by (nonlinear_arith)
            requires
                p * n == d - d % p,
                d == t + p - 1,
                t > 0,
                p > 0,
                0 <= d % p < p,
        ;
    }
}

/// The per-piece assembly buffers of one torrent: one `Piece` per digest of
/// the descriptor. Its view is the sequence of piece views.
pub struct PieceStore {
    pieces: Vec<Piece>,
}

impl View for PieceStore {
    type V = Seq<PieceView>;

    closed spec fn view(&self) -> Seq<PieceView> {
        Seq::new(self.pieces@.len(), |i: int| self.pieces@[i]@)
    }
}

impl PieceStore {
    /// One fresh piece per digest of a structurally valid descriptor: piece
    /// `i` gets index `i`, its expected length, and its expected digest in
    /// lowercase hex.
    pub fn from_info(info: &Info) -> (r: Self)
        requires
            valid_info(*info),
            info.piece_length <= u32::MAX,
            spec_num_pieces(*info) <= u32::MAX,
        ensures
            r@.len() == spec_num_pieces(*info),
            forall|i: int|
                0 <= i < r@.len() ==> {
                    &&& (#[trigger] r@[i]).index == i
                    &&& r@[i].length == spec_piece_len(*info, i)
                    &&& r@[i].hash == hex_of(spec_piece_digest(*info, i))
                    &&& !r@[i].is_complete
                    &&& r@[i].received =~= Seq::new(r@[i].length as nat, |k: int| false)
                },
    {
        proof {
            lemma_piece_len_bounds(*info);
        }
        let n = info.pieces.len() / 20;
        let total: i64 = if let Some(l) = info.length {
            l
        } else {
            let mut acc: i64 = 0;
            let fs = match &info.files {
                Some(fs) => fs,
                None => {
                    proof {
                        assert(total_length(*info) == 0);
                    }
                    let r = PieceStore { pieces: Vec::new() };
                    proof {
                        assert(r@ =~= Seq::<PieceView>::empty());
                    }
                    return r;
                },
            };
            let m = fs.len();
            let mut j: usize = 0;
            proof {
                assert(crate::meta_info::files_total(fs@.take(0)) == 0);
                crate::meta_info::lemma_files_total_nonneg(fs@);
            }
            while j < m
                invariant
                    j <= m,
                    m == fs@.len(),
                    info.files == Some(*fs),
                    valid_info(*info),
                    info.length is None,
                    0 <= acc <= i64::MAX,
                    acc == crate::meta_info::files_total(fs@.take(j as int)),
                decreases m - j,
            {
                proof {
                    lemma_files_total_take_step(fs@, j as int);
                    lemma_files_total_mono(fs@, j + 1);
                }
                acc = acc + fs[j].length;
                j = j + 1;
            }
            proof {
                assert(fs@.take(m as int) =~= fs@);
            }
            acc
        };
        let plen = info.piece_length;
        let mut pieces: Vec<Piece> = Vec::new();
        let mut i: usize = 0;
        while i < n
            invariant
                i <= n,
                n == spec_num_pieces(*info),
                n <= u32::MAX,
                valid_info(*info),
                total == total_length(*info),
                plen == info.piece_length,
                0 < plen <= u32::MAX,
                20 * n <= info.pieces@.len(),
                20 * n <= usize::MAX,
                pieces@.len() == i,
                forall|k: int|
                    0 <= k < i ==> {
                        &&& (#[trigger] pieces@[k]@).index == k
                        &&& pieces@[k]@.length == spec_piece_len(*info, k)
                        &&& pieces@[k]@.hash == hex_of(spec_piece_digest(*info, k))
                        &&& !pieces@[k]@.is_complete
                        &&& pieces@[k]@.received =~= Seq::new(
                            pieces@[k]@.length as nat,
                            |q: int| false,
                        )
                    },
            decreases n - i,
        {
            proof {
                lemma_piece_len_bounds(*info);
            }
            let length: u32 = if i + 1 < n {
                plen as u32
            } else {
                proof {
                    assert(1 <= spec_piece_len(*info, n as int - 1) <= plen);
                    assert((n as int - 1) * (plen as int) >= 0) by (nonlinear_arith)
                        requires
                            n >= 1,
                            plen > 0,
                    ;
                }
                (total - ((n - 1) as i64) * plen) as u32
            };
            let digest = copy_range(info.pieces.as_slice(), 20 * i, 20);
            let hash = hex_encode(digest.as_slice());
            let piece = Piece::new(i as u32, length, hash);
            pieces.push(piece);
            i = i + 1;
        }
        let r = PieceStore { pieces };
        proof {
            assert(r@.len() == n);
        }
        r
    }

    /// Number of pieces.
    pub fn len(&self) -> (r: usize)
        ensures
            r == self@.len(),
    {
        self.pieces.len()
    }

    /// The piece at `index`.
    pub fn piece_at(&self, index: usize) -> (r: &Piece)
        requires
            index < self@.len(),
        ensures
            r@ == self@[index as int],
    {
        &self.pieces[index]
    }

    /// Writes a delivered block into its piece. A piece index the store does
    /// not hold, or a range outside the piece, is refused and nothing
    /// changes.
    pub fn apply_block(&mut self, piece_index: u32, offset: u32, bytes: &Vec<u8>) -> (r: Result<
        (),
        StoreError,
    >)
        ensures
            r is Ok <==> (piece_index < old(self)@.len() && offset + bytes@.len() <= old(self)@[piece_index as int].length),
            piece_index >= old(self)@.len() ==> r == Result::<(), StoreError>::Err(
                StoreError::NoSuchPiece,
            ) && final(self)@ == old(self)@,
            r is Err ==> final(self)@ == old(self)@,
            r is Ok ==> final(self)@ =~= old(self)@.update(
                piece_index as int,
                (PieceView {
                    data: overwrite(
                        old(self)@[piece_index as int].data,
                        offset as int,
                        bytes@,
                    ),
                    received: mark_received(
                        old(self)@[piece_index as int].received,
                        offset as int,
                        bytes@.len() as int,
                    ),
                    ..old(self)@[piece_index as int]
                }),
            ),
    {
        let idx = piece_index as usize;
        if idx >= self.pieces.len() {
            return Err(StoreError::NoSuchPiece);
        }
        let p = &mut self.pieces[idx];
        let res = p.apply_block(offset, bytes);
        proof {
            if res is Err {
                assert(final(self)@ =~= old(self)@);
            }
        }
        res
    }

    /// Whether every byte of piece `piece_index` has been received.
    pub fn is_piece_fully_received(&self, piece_index: u32) -> (r: bool)
        requires
            piece_index < self@.len(),
        ensures
            r == (forall|i: int|
                0 <= i < self@[piece_index as int].received.len()
                    ==> self@[piece_index as int].received[i]),
    {
        proof {
            assert(self@[piece_index as int] == self.pieces@[piece_index as int]@);
        }
        self.pieces[piece_index as usize].is_fully_received()
    }

    /// Verifies piece `piece_index` against its expected digest. On a match
    /// the piece is marked complete and its bit is set in the local bit
    /// field; on a mismatch the piece's buffer and received record are
    /// discarded, its bit is left untouched, and every block of the piece
    /// can be requested again.
    pub fn verify(&mut self, piece_index: u32, local: &mut BitField) -> (r: Result<
        bool,
        StoreError,
    >)
        requires
            old(local)@.len() == old(self)@.len(),
        ensures
            r is Ok <==> piece_index < old(self)@.len(),
            r is Err ==> r == Result::<bool, StoreError>::Err(StoreError::NoSuchPiece) && final(self)@ == old(self)@ && final(local)@ == old(local)@,
            r is Ok ==> (r->Ok_0 == (hex_of(sha1_of(old(self)@[piece_index as int].data)) == old(self)@[piece_index as int].hash)),
            r == Result::<bool, StoreError>::Ok(true) ==> {
                &&& final(self)@ =~= old(self)@.update(
                    piece_index as int,
                    (PieceView { is_complete: true, ..old(self)@[piece_index as int] }),
                )
                &&& final(local)@ == old(local)@.update(piece_index as int, true)
            },
            r == Result::<bool, StoreError>::Ok(false) ==> {
                &&& final(self)@ =~= old(self)@.update(
                    piece_index as int,
                    (PieceView {
                        is_complete: false,
                        data: Seq::new(
                            old(self)@[piece_index as int].length as nat,
                            |i: int| 0u8,
                        ),
                        received: Seq::new(
                            old(self)@[piece_index as int].length as nat,
                            |i: int| false,
                        ),
                        blocks: Seq::<Block>::empty(),
                        ..old(self)@[piece_index as int]
                    }),
                )
                &&& final(local)@ == old(local)@
            },
    {
        let idx = piece_index as usize;
        if idx >= self.pieces.len() {
            return Err(StoreError::NoSuchPiece);
        }
        let p = &mut self.pieces[idx];
        let ok = p.verify();
        if ok {
            local.set(idx);
            proof {
                assert(final(self)@ =~= old(self)@.update(
                    piece_index as int,
                    (PieceView { is_complete: true, ..old(self)@[piece_index as int] }),
                ));
            }
            Ok(true)
        } else {
            proof {
                assert(final(self)@ =~= old(self)@.update(
                    piece_index as int,
                    (PieceView {
                        is_complete: false,
                        data: Seq::new(
                            old(self)@[piece_index as int].length as nat,
                            |i: int| 0u8,
                        ),
                        received: Seq::new(
                            old(self)@[piece_index as int].length as nat,
                            |i: int| false,
                        ),
                        blocks: Seq::<Block>::empty(),
                        ..old(self)@[piece_index as int]
                    }),
                ));
            }
            Ok(false)
        }
    }
}

} // verus!
