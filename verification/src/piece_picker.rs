//! The piece picker: rarest-first selection with a reproducible lowest-index
//! tie-break, ascending block requests that skip received ranges and
//! in-flight blocks, and an endgame mode that tolerates duplicate in-flight
//! requests once few eligible pieces remain.
use vstd::prelude::*;

use crate::bitfield::BitField;
use crate::peer::{PeerWire, PendingRequest, SessionState, MAX_OUTSTANDING};
use crate::piece::{Piece, PieceStore, PieceView};
use vstd::arithmetic::div_mod::lemma_fundamental_div_mod;

verus! {

/// The request unit: blocks of at most 16 KiB.
pub const BLOCK_SIZE: u32 = 16384;

/// A planned request: which peer to ask for which block.
pub struct Assignment {
    pub peer: usize,
    pub request: PendingRequest,
}

/// An eligible peer: its session established and the peer not choking this
/// side.
pub open spec fn spec_peer_eligible(p: PeerWire) -> bool {
    p@.state == SessionState::Established && !p@.peer_choking
}

/// An eligible peer advertising piece `i`.
pub open spec fn spec_advertises(p: PeerWire, i: int) -> bool {
    spec_peer_eligible(p) && 0 <= i < p@.peer_bitfield.len() && p@.peer_bitfield[i]
}

/// How many eligible peers advertise piece `i`.
pub open spec fn spec_availability(peers: Seq<PeerWire>, i: int) -> nat
    decreases peers.len(),
{
    if peers.len() == 0 {
        0
    } else {
        spec_availability(peers.drop_last(), i) + if spec_advertises(peers.last(), i) {
            1nat
        } else {
            0nat
        }
    }
}

/// Every byte of a piece has been received.
pub open spec fn spec_fully_received(v: PieceView) -> bool {
    forall|k: int| 0 <= k < v.received.len() ==> v.received[k]
}

/// An eligible piece: not held locally, not fully received, and advertised
/// by at least one eligible peer.
pub open spec fn spec_piece_eligible(
    local: Seq<bool>,
    store: Seq<PieceView>,
    peers: Seq<PeerWire>,
    i: int,
) -> bool {
    &&& 0 <= i < local.len()
    &&& i < store.len()
    &&& !local[i]
    &&& !spec_fully_received(store[i])
    &&& spec_availability(peers, i) >= 1
}

/// Number of eligible peers.
pub open spec fn spec_eligible_peer_count(peers: Seq<PeerWire>) -> nat
    decreases peers.len(),
{
    if peers.len() == 0 {
        0
    } else {
        spec_eligible_peer_count(peers.drop_last()) + if spec_peer_eligible(peers.last()) {
            1nat
        } else {
            0nat
        }
    }
}

/// Number of eligible pieces among the first `n`.
pub open spec fn spec_eligible_piece_count(
    local: Seq<bool>,
    store: Seq<PieceView>,
    peers: Seq<PeerWire>,
    n: int,
) -> nat
    decreases n,
{
    if n <= 0 {
        0
    } else {
        spec_eligible_piece_count(local, store, peers, n - 1) + if spec_piece_eligible(
            local,
            store,
            peers,
            n - 1,
        ) {
            1nat
        } else {
            0nat
        }
    }
}


/// How many more requests a peer's pipeline can take now.
pub open spec fn spec_spare_capacity(p: PeerWire) -> nat {
    if p@.outstanding.len() >= MAX_OUTSTANDING {
        0
    } else {
        (MAX_OUTSTANDING - p@.outstanding.len()) as nat
    }
}

/// How many of a plan's assignments name peer `p`.
pub open spec fn spec_assigned_to(r: Seq<Assignment>, p: int) -> nat
    decreases r.len(),
{
    if r.len() == 0 {
        0
    } else {
        spec_assigned_to(r.drop_last(), p) + if r.last().peer == p {
            1nat
        } else {
            0nat
        }
    }
}

proof fn lemma_assigned_to_push(r: Seq<Assignment>, a: Assignment, p: int)
    ensures
        spec_assigned_to(r.push(a), p) == spec_assigned_to(r, p) + if a.peer == p {
            1nat
        } else {
            0nat
        },
{
    assert(r.push(a).drop_last() =~= r);
    assert(r.push(a).last() == a);
}

/// The block (`index`, `begin`) is in flight to some peer.
pub open spec fn spec_outstanding_anywhere(peers: Seq<PeerWire>, index: u32, begin: u32) -> bool {
    exists|p: int, q: int|
        0 <= p < peers.len() && 0 <= q < peers[p]@.outstanding.len() && (#[trigger] peers[p]@.outstanding[q]).index
            == index && peers[p]@.outstanding[q].begin == begin
}

/// The length of the block starting at `o` in a piece of length `length`.
pub open spec fn spec_block_len(length: u32, o: int) -> int {
    if length - o < BLOCK_SIZE {
        length - o
    } else {
        BLOCK_SIZE as int
    }
}

proof fn lemma_availability_take_step(peers: Seq<PeerWire>, i: int, k: int)
    requires
        0 <= k < peers.len(),
    ensures
        spec_availability(peers.take(k + 1), i) == spec_availability(peers.take(k), i)
            + if spec_advertises(peers[k], i) {
            1nat
        } else {
            0nat
        },
{
    assert(peers.take(k + 1).drop_last() =~= peers.take(k));
    assert(peers.take(k + 1).last() == peers[k]);
}

proof fn lemma_peer_count_take_step(peers: Seq<PeerWire>, k: int)
    requires
        0 <= k < peers.len(),
    ensures
        spec_eligible_peer_count(peers.take(k + 1)) == spec_eligible_peer_count(peers.take(k))
            + if spec_peer_eligible(peers[k]) {
            1nat
        } else {
            0nat
        },
{
    assert(peers.take(k + 1).drop_last() =~= peers.take(k));
    assert(peers.take(k + 1).last() == peers[k]);
}

/// Whether one peer is eligible now.
pub fn peer_eligible(p: &PeerWire) -> (r: bool)
    ensures
        r == spec_peer_eligible(*p),
{
    matches!(p.state(), SessionState::Established) && !p.peer_choking()
}

/// Whether one eligible peer advertises piece `i`.
pub fn advertises(p: &PeerWire, i: usize) -> (r: bool)
    ensures
        r == spec_advertises(*p, i as int),
{
    if !peer_eligible(p) {
        return false;
    }
    let bf = p.peer_bitfield();
    i < bf.len() && bf.get(i)
}

/// Counts the eligible peers advertising piece `i`.
pub fn availability(peers: &Vec<PeerWire>, i: usize) -> (r: usize)
    ensures
        r == spec_availability(peers@, i as int),
{
    let n = peers.len();
    let mut k: usize = 0;
    let mut acc: usize = 0;
    proof {
        assert(peers@.take(0) =~= Seq::<PeerWire>::empty());
    }
    while k < n
        invariant
            k <= n,
            n == peers@.len(),
            acc <= k,
            acc == spec_availability(peers@.take(k as int), i as int),
        decreases n - k,
    {
        proof {
            lemma_availability_take_step(peers@, i as int, k as int);
        }
        if advertises(&peers[k], i) {
            acc = acc + 1;
        }
        k = k + 1;
    }
    proof {
        assert(peers@.take(n as int) =~= peers@);
    }
    acc
}

/// Counts the eligible peers.
pub fn eligible_peer_count(peers: &Vec<PeerWire>) -> (r: usize)
    ensures
        r == spec_eligible_peer_count(peers@),
{
    let n = peers.len();
    let mut k: usize = 0;
    let mut acc: usize = 0;
    proof {
        assert(peers@.take(0) =~= Seq::<PeerWire>::empty());
    }
    while k < n
        invariant
            k <= n,
            n == peers@.len(),
            acc <= k,
            acc == spec_eligible_peer_count(peers@.take(k as int)),
        decreases n - k,
    {
        proof {
            lemma_peer_count_take_step(peers@, k as int);
        }
        if peer_eligible(&peers[k]) {
            acc = acc + 1;
        }
        k = k + 1;
    }
    proof {
        assert(peers@.take(n as int) =~= peers@);
    }
    acc
}

/// The picker: reads the peer sessions' bit fields and the store's
/// completion state, and decides which blocks to request from whom.
pub struct PiecePicker<'a> {
    peers: &'a Vec<PeerWire>,
}

impl<'a> View for PiecePicker<'a> {
    type V = Seq<PeerWire>;

    closed spec fn view(&self) -> Seq<PeerWire> {
        self.peers@
    }
}

impl<'a> PiecePicker<'a> {
    /// A picker over the given peer sessions.
    pub fn new(peers: &'a Vec<PeerWire>) -> (r: PiecePicker<'a>)
        ensures
            r@ == peers@,
    {
        PiecePicker { peers }
    }

    /// Whether piece `i` is eligible to be requested now.
    pub fn piece_eligible(&self, local: &BitField, store: &PieceStore, i: usize) -> (r: bool)
        requires
            local@.len() == store@.len(),
            store@.len() <= u32::MAX,
        ensures
            r == spec_piece_eligible(local@, store@, self@, i as int),
    {
        if i >= local.len() {
            return false;
        }
        if local.get(i) {
            return false;
        }
        if store.is_piece_fully_received(i as u32) {
            return false;
        }
        availability(self.peers, i) >= 1
    }

    /// Rarest-first selection: the eligible piece advertised by the fewest
    /// eligible peers, ties broken by the lowest piece index; `None` exactly
    /// when no piece is eligible.
    pub fn pick_rarest(&self, local: &BitField, store: &PieceStore) -> (r: Option<usize>)
        requires
            local@.len() == store@.len(),
            store@.len() <= u32::MAX,
        ensures
            r is Some <==> exists|j: int| spec_piece_eligible(local@, store@, self@, j),
            r matches Some(i) ==> {
                &&& spec_piece_eligible(local@, store@, self@, i as int)
                &&& forall|j: int|
                    spec_piece_eligible(local@, store@, self@, j) ==> spec_availability(
                        self@,
                        i as int,
                    ) <= spec_availability(self@, j)
                &&& forall|j: int|
                    spec_piece_eligible(local@, store@, self@, j) && spec_availability(self@, j)
                        == spec_availability(self@, i as int) ==> i <= j
            },
    {
        let n = local.len();
        let mut found = false;
        let mut best: usize = 0;
        let mut best_avail: usize = 0;
        let mut i: usize = 0;
        while i < n
            invariant
                i <= n,
                n == local@.len(),
                local@.len() == store@.len(),
                store@.len() <= u32::MAX,
                found ==> spec_piece_eligible(local@, store@, self@, best as int) && best_avail
                    == spec_availability(self@, best as int) && best < i,
                forall|j: int|
                    0 <= j < i && spec_piece_eligible(local@, store@, self@, j) ==> found && (
                    best_avail <= spec_availability(self@, j)) && (spec_availability(self@, j)
                        == best_avail ==> best <= j),
                !found ==> forall|j: int|
                    0 <= j < i ==> !spec_piece_eligible(local@, store@, self@, j),
            decreases n - i,
        {
            let elig = self.piece_eligible(local, store, i);
            if elig {
                let av = availability(self.peers, i);
                if !found || av < best_avail {
                    found = true;
                    best = i;
                    best_avail = av;
                }
            }
            i = i + 1;
        }
        if found {
            Some(best)
        } else {
            proof {
                assert forall|j: int| !spec_piece_eligible(local@, store@, self@, j) by {
                    if 0 <= j < n {
                    }
                }
            }
            None
        }
    }

    /// Whether endgame mode is active: no more eligible pieces remain than
    /// there are eligible peers, so duplicate in-flight requests for the
    /// same block are tolerated to avoid stalling on one slow source.
    pub fn endgame_active(&self, local: &BitField, store: &PieceStore) -> (r: bool)
        requires
            local@.len() == store@.len(),
            store@.len() <= u32::MAX,
        ensures
            r == (spec_eligible_piece_count(local@, store@, self@, store@.len() as int)
                <= spec_eligible_peer_count(self@)),
    {
        let n = local.len();
        let mut i: usize = 0;
        let mut count: usize = 0;
        while i < n
            invariant
                i <= n,
                n == local@.len(),
                local@.len() == store@.len(),
                store@.len() <= u32::MAX,
                count <= i,
                count == spec_eligible_piece_count(local@, store@, self@, i as int),
            decreases n - i,
        {
            if self.piece_eligible(local, store, i) {
                count = count + 1;
            }
            i = i + 1;
        }
        let peers_count = eligible_peer_count(self.peers);
        count <= peers_count
    }
}

/// The block (`index`, `begin`) is in flight to some peer.
pub fn outstanding_anywhere(peers: &Vec<PeerWire>, index: u32, begin: u32) -> (r: bool)
    ensures
        r == spec_outstanding_anywhere(peers@, index, begin),
{
    let n = peers.len();
    let mut p: usize = 0;
    while p < n
        invariant
            p <= n,
            n == peers@.len(),
            forall|pp: int, qq: int|
                0 <= pp < p && 0 <= qq < peers@[pp]@.outstanding.len() ==> !((
                #[trigger] peers@[pp]@.outstanding[qq]).index == index
                    && peers@[pp]@.outstanding[qq].begin == begin),
        decreases n - p,
    {
        let outs = peers[p].outstanding();
        let m = outs.len();
        let mut q: usize = 0;
        while q < m
            invariant
                q <= m,
                p < n,
                n == peers@.len(),
                m == peers@[p as int]@.outstanding.len(),
                outs@ == peers@[p as int]@.outstanding,
                forall|qq: int|
                    0 <= qq < q ==> !((#[trigger] peers@[p as int]@.outstanding[qq]).index == index
                        && peers@[p as int]@.outstanding[qq].begin == begin),
            decreases m - q,
        {
            let e = outs[q];
            if e.index == index && e.begin == begin {
                return true;
            }
            q = q + 1;
        }
        p = p + 1;
    }
    false
}

/// The blocks of one piece still worth requesting: ascending offsets, one
/// per block-aligned range that is not yet fully received, each of the
/// standard block size except a shorter final block.
pub fn blocks_for_piece(piece: &Piece) -> (r: Vec<PendingRequest>)
    ensures
        forall|k: int|
            0 <= k < r@.len() ==> {
                &&& (#[trigger] r@[k]).index == piece@.index
                &&& r@[k].begin % BLOCK_SIZE == 0
                &&& r@[k].begin < piece@.length
                &&& r@[k].length == spec_block_len(piece@.length, r@[k].begin as int)
                &&& !crate::piece::spec_range_received_full(
                    piece@,
                    r@[k].begin as int,
                    r@[k].length as int,
                )
            },
        forall|o: int|
            0 <= o < piece@.length && o % (BLOCK_SIZE as int) == 0 && !crate::piece::spec_range_received_full(
                piece@,
                o,
                spec_block_len(piece@.length, o),
            ) ==> exists|k: int| 0 <= k < r@.len() && (#[trigger] r@[k]).begin == o,
        forall|k1: int, k2: int|
            0 <= k1 < k2 < r@.len() ==> (#[trigger] r@[k1]).begin < (#[trigger] r@[k2]).begin,
{
    let length = piece.length();
    let index = piece.index();
    let mut out: Vec<PendingRequest> = Vec::new();
    let mut o: u32 = 0;
    while o < length
        invariant
            o <= length,
            o % BLOCK_SIZE == 0 || o == length,
            length == piece@.length,
            index == piece@.index,
            forall|k: int|
                0 <= k < out@.len() ==> {
                    &&& (#[trigger] out@[k]).index == piece@.index
                    &&& out@[k].begin % BLOCK_SIZE == 0
                    &&& out@[k].begin < o
                    &&& out@[k].length == spec_block_len(piece@.length, out@[k].begin as int)
                    &&& !crate::piece::spec_range_received_full(
                        piece@,
                        out@[k].begin as int,
                        out@[k].length as int,
                    )
                },
            forall|oo: int|
                0 <= oo < o && oo % (BLOCK_SIZE as int) == 0
                    && !crate::piece::spec_range_received_full(
                    piece@,
                    oo,
                    spec_block_len(piece@.length, oo),
                ) ==> exists|k: int| 0 <= k < out@.len() && (#[trigger] out@[k]).begin == oo,
            forall|k1: int, k2: int|
                0 <= k1 < k2 < out@.len() ==> (#[trigger] out@[k1]).begin < (#[trigger] out@[
                k2]).begin,
        decreases length - o,
    {
        let blen = if length - o < BLOCK_SIZE {
            length - o
        } else {
            BLOCK_SIZE
        };
        let ghost prev = out@;
        if !piece.range_fully_received(o, blen) {
            out.push(PendingRequest { index, begin: o, length: blen });
            proof {
                assert(out@[out@.len() - 1] == (PendingRequest { index, begin: o, length: blen }));
            }
        }
        let ghost o_old = o as int;
        o = o + blen;
        proof {
            let b = BLOCK_SIZE as int;
            assert forall|oo: int| o_old < oo < o as int && #[trigger] (oo % b) == 0 implies false by {
                lemma_fundamental_div_mod(oo, b);
                lemma_fundamental_div_mod(o_old, b);
                let q1 = oo / b;
                let q0 = o_old / b;
                assert(oo == b * q1 && o_old == b * q0);
                assert(b * q1 > b * q0 ==> q1 > q0) by (nonlinear_arith)
                    requires
                        b > 0,
                ;
                assert(b * q1 >= b * (q0 + 1)) by (nonlinear_arith)
                    requires
                        b > 0,
                        q1 >= q0 + 1,
                ;
            }
            assert forall|oo: int|
                0 <= oo < o as int && #[trigger] (oo % b) == 0
                    && !crate::piece::spec_range_received_full(
                    piece@,
                    oo,
                    spec_block_len(piece@.length, oo),
                ) implies exists|k: int| 0 <= k < out@.len() && (#[trigger] out@[k]).begin == oo by {
                if oo < o_old {
                    let k = choose|k: int| 0 <= k < prev.len() && (#[trigger] prev[k]).begin == oo;
                    assert(out@[k].begin == oo);
                } else {
                    assert(oo == o_old);
                    assert(out@[out@.len() - 1].begin == oo);
                }
            }
        }
    }
    out
}

impl<'a> PiecePicker<'a> {
    /// Plans the next block requests. Outside endgame every planned request
    /// targets the rarest eligible piece, no block already in flight to any
    /// peer is re-requested, and no block is planned twice. In endgame mode
    /// the remaining blocks may be planned for several eligible peers at
    /// once, so a slow source cannot stall completion. Every planned
    /// request names an eligible peer that advertises the piece, an
    /// eligible piece, and a block-aligned range not yet received.
    #[verifier::rlimit(100)]
    #[verifier::spinoff_prover]
    pub fn next_requests(&self, local: &BitField, store: &PieceStore) -> (r: Vec<Assignment>)
        requires
            local@.len() == store@.len(),
            store@.len() <= u32::MAX,
            forall|j: int| 0 <= j < store@.len() ==> (#[trigger] store@[j]).index == j,
        ensures
            forall|k: int|
                0 <= k < r@.len() ==> {
                    &&& (#[trigger] r@[k]).peer < self@.len()
                    &&& spec_advertises(self@[r@[k].peer as int], r@[k].request.index as int)
                    &&& spec_piece_eligible(local@, store@, self@, r@[k].request.index as int)
                    &&& r@[k].request.begin % BLOCK_SIZE == 0
                    &&& r@[k].request.begin < store@[r@[k].request.index as int].length
                    &&& r@[k].request.length == spec_block_len(
                        store@[r@[k].request.index as int].length,
                        r@[k].request.begin as int,
                    )
                    &&& !crate::piece::spec_range_received_full(
                        store@[r@[k].request.index as int],
                        r@[k].request.begin as int,
                        r@[k].request.length as int,
                    )
                },
            forall|p: int|
                0 <= p < self@.len() ==> spec_assigned_to(r@, p) <= spec_spare_capacity(
                    #[trigger] self@[p],
                ),
            !(spec_eligible_piece_count(local@, store@, self@, store@.len() as int)
                <= spec_eligible_peer_count(self@)) ==> {
                &&& forall|k1: int, k2: int|
                    0 <= k1 < r@.len() && 0 <= k2 < r@.len() ==> (#[trigger] r@[k1]).request.index
                        == (#[trigger] r@[k2]).request.index
                &&& forall|k1: int, k2: int|
                    0 <= k1 < k2 < r@.len() ==> (#[trigger] r@[k1]).request.begin < (
                    #[trigger] r@[k2]).request.begin
                &&& forall|k: int|
                    0 <= k < r@.len() ==> !spec_outstanding_anywhere(
                        self@,
                        (#[trigger] r@[k]).request.index,
                        r@[k].request.begin,
                    )
                &&& forall|k: int, j: int|
                    0 <= k < r@.len() && #[trigger] spec_piece_eligible(local@, store@, self@, j)
                        ==> spec_availability(self@, (#[trigger] r@[k]).request.index as int)
                        <= spec_availability(self@, j)
                &&& forall|k: int, j: int|
                    0 <= k < r@.len() && #[trigger] spec_piece_eligible(local@, store@, self@, j)
                        && spec_availability(self@, j) == spec_availability(
                        self@,
                        (#[trigger] r@[k]).request.index as int,
                    ) ==> r@[k].request.index <= j
            },
    {
        let endgame = self.endgame_active(local, store);
        let mut out: Vec<Assignment> = Vec::new();
        let npeers = self.peers.len();
        let mut caps: Vec<usize> = Vec::new();
        let mut p: usize = 0;
        while p < npeers
            invariant
                p <= npeers,
                npeers == self@.len(),
                caps@.len() == p,
                forall|q: int|
                    0 <= q < p ==> caps@[q] == spec_spare_capacity(#[trigger] self@[q]),
            decreases npeers - p,
        {
            let outs = self.peers[p].outstanding().len();
            let c = if outs >= MAX_OUTSTANDING {
                0
            } else {
                MAX_OUTSTANDING - outs
            };
            caps.push(c);
            p = p + 1;
        }
        proof {
            assert(spec_assigned_to(out@, 0) == 0);
        }
        if !endgame {
            let pi = match self.pick_rarest(local, store) {
                None => {
                    return out;
                },
                Some(p) => p,
            };
            let blocks = blocks_for_piece(store.piece_at(pi));
            let nb = blocks.len();
            let mut bi: usize = 0;
            while bi < nb
                invariant
                    bi <= nb,
                    nb == blocks@.len(),
                    npeers == self@.len(),
                    caps@.len() == npeers,
                    forall|p: int|
                        0 <= p < npeers ==> caps@[p] + spec_assigned_to(out@, p)
                            == spec_spare_capacity(#[trigger] self@[p]),
                    local@.len() == store@.len(),
                    store@.len() <= u32::MAX,
                    pi < store@.len(),
                    spec_piece_eligible(local@, store@, self@, pi as int),
                    forall|j: int|
                        spec_piece_eligible(local@, store@, self@, j) ==> spec_availability(
                            self@,
                            pi as int,
                        ) <= spec_availability(self@, j),
                    forall|j: int|
                        spec_piece_eligible(local@, store@, self@, j) && spec_availability(
                            self@,
                            j,
                        ) == spec_availability(self@, pi as int) ==> pi <= j,
                    forall|k: int|
                        0 <= k < blocks@.len() ==> {
                            &&& (#[trigger] blocks@[k]).index == store@[pi as int].index
                            &&& blocks@[k].begin % BLOCK_SIZE == 0
                            &&& blocks@[k].begin < store@[pi as int].length
                            &&& blocks@[k].length == spec_block_len(
                                store@[pi as int].length,
                                blocks@[k].begin as int,
                            )
                            &&& !crate::piece::spec_range_received_full(
                                store@[pi as int],
                                blocks@[k].begin as int,
                                blocks@[k].length as int,
                            )
                        },
                    forall|k1: int, k2: int|
                        0 <= k1 < k2 < blocks@.len() ==> (#[trigger] blocks@[k1]).begin < (
                        #[trigger] blocks@[k2]).begin,
                    store@[pi as int].index == pi,
                    forall|k: int|
                        0 <= k < out@.len() ==> {
                            &&& (#[trigger] out@[k]).peer < self@.len()
                            &&& spec_advertises(self@[out@[k].peer as int], pi as int)
                            &&& out@[k].request.index == pi
                            &&& out@[k].request.begin % BLOCK_SIZE == 0
                            &&& out@[k].request.begin < store@[pi as int].length
                            &&& out@[k].request.length == spec_block_len(
                                store@[pi as int].length,
                                out@[k].request.begin as int,
                            )
                            &&& !crate::piece::spec_range_received_full(
                                store@[pi as int],
                                out@[k].request.begin as int,
                                out@[k].request.length as int,
                            )
                            &&& !spec_outstanding_anywhere(
                                self@,
                                out@[k].request.index,
                                out@[k].request.begin,
                            )
                        },
                    forall|k1: int, k2: int|
                        0 <= k1 < k2 < out@.len() ==> (#[trigger] out@[k1]).request.begin < (
                        #[trigger] out@[k2]).request.begin,
                    forall|k: int|
                        0 <= k < out@.len() && bi < blocks@.len() ==> (
                        #[trigger] out@[k]).request.begin < blocks@[bi as int].begin,
                decreases nb - bi,
            {
                let blk = blocks[bi];
                if !outstanding_anywhere(self.peers, blk.index, blk.begin) {
                    let mut chosen: usize = npeers;
                    let mut q: usize = 0;
                    while q < npeers
                        invariant
                            q <= npeers,
                            npeers == self@.len(),
                            caps@.len() == npeers,
                            chosen == npeers || (chosen < npeers && spec_advertises(
                                self@[chosen as int],
                                pi as int,
                            ) && caps@[chosen as int] > 0),
                        decreases npeers - q,
                    {
                        if chosen == npeers && caps[q] > 0 && advertises(&self.peers[q], pi) {
                            chosen = q;
                        }
                        q = q + 1;
                    }
                    if chosen < npeers {
                        let c = caps[chosen];
                        caps[chosen] = c - 1;
                        proof {
                            lemma_assigned_to_push(
                                out@,
                                Assignment { peer: chosen, request: blk },
                                chosen as int,
                            );
                            assert forall|pp: int| 0 <= pp < npeers implies caps@[pp]
                                + spec_assigned_to(
                                out@.push(Assignment { peer: chosen, request: blk }),
                                pp,
                            ) == spec_spare_capacity(#[trigger] self@[pp]) by {
                                lemma_assigned_to_push(
                                    out@,
                                    Assignment { peer: chosen, request: blk },
                                    pp,
                                );
                            }
                        }
                        out.push(Assignment { peer: chosen, request: blk });
                        proof {
                            assert(out@[out@.len() - 1] == (Assignment {
                                peer: chosen,
                                request: blk,
                            }));
                        }
                    }
                }
                bi = bi + 1;
            }
            out
        } else {
            let n = local.len();
            let mut i: usize = 0;
            while i < n
                invariant
                    i <= n,
                    n == local@.len(),
                    npeers == self@.len(),
                    caps@.len() == npeers,
                    forall|p: int|
                        0 <= p < npeers ==> caps@[p] + spec_assigned_to(out@, p)
                            == spec_spare_capacity(#[trigger] self@[p]),
                    local@.len() == store@.len(),
                    store@.len() <= u32::MAX,
                    forall|j: int| 0 <= j < store@.len() ==> (#[trigger] store@[j]).index == j,
                    forall|k: int|
                        0 <= k < out@.len() ==> {
                            &&& (#[trigger] out@[k]).peer < self@.len()
                            &&& spec_advertises(
                                self@[out@[k].peer as int],
                                out@[k].request.index as int,
                            )
                            &&& spec_piece_eligible(
                                local@,
                                store@,
                                self@,
                                out@[k].request.index as int,
                            )
                            &&& out@[k].request.begin % BLOCK_SIZE == 0
                            &&& out@[k].request.begin < store@[out@[k].request.index as int].length
                            &&& out@[k].request.length == spec_block_len(
                                store@[out@[k].request.index as int].length,
                                out@[k].request.begin as int,
                            )
                            &&& !crate::piece::spec_range_received_full(
                                store@[out@[k].request.index as int],
                                out@[k].request.begin as int,
                                out@[k].request.length as int,
                            )
                        },
                decreases n - i,
            {
                if self.piece_eligible(local, store, i) {
                    let blocks = blocks_for_piece(store.piece_at(i));
                    let nb = blocks.len();
                    let mut bi: usize = 0;
                    while bi < nb
                        invariant
                            bi <= nb,
                            nb == blocks@.len(),
                            i < n,
                            n == local@.len(),
                            npeers == self@.len(),
                            caps@.len() == npeers,
                            forall|p: int|
                                0 <= p < npeers ==> caps@[p] + spec_assigned_to(out@, p)
                                    == spec_spare_capacity(#[trigger] self@[p]),
                            local@.len() == store@.len(),
                            store@.len() <= u32::MAX,
                            spec_piece_eligible(local@, store@, self@, i as int),
                            store@[i as int].index == i,
                            forall|k: int|
                                0 <= k < blocks@.len() ==> {
                                    &&& (#[trigger] blocks@[k]).index == store@[i as int].index
                                    &&& blocks@[k].begin % BLOCK_SIZE == 0
                                    &&& blocks@[k].begin < store@[i as int].length
                                    &&& blocks@[k].length == spec_block_len(
                                        store@[i as int].length,
                                        blocks@[k].begin as int,
                                    )
                                    &&& !crate::piece::spec_range_received_full(
                                        store@[i as int],
                                        blocks@[k].begin as int,
                                        blocks@[k].length as int,
                                    )
                                },
                            forall|k: int|
                                0 <= k < out@.len() ==> {
                                    &&& (#[trigger] out@[k]).peer < self@.len()
                                    &&& spec_advertises(
                                        self@[out@[k].peer as int],
                                        out@[k].request.index as int,
                                    )
                                    &&& spec_piece_eligible(
                                        local@,
                                        store@,
                                        self@,
                                        out@[k].request.index as int,
                                    )
                                    &&& out@[k].request.begin % BLOCK_SIZE == 0
                                    &&& out@[k].request.begin < store@[out@[k].request.index as int].length
                                    &&& out@[k].request.length == spec_block_len(
                                        store@[out@[k].request.index as int].length,
                                        out@[k].request.begin as int,
                                    )
                                    &&& !crate::piece::spec_range_received_full(
                                        store@[out@[k].request.index as int],
                                        out@[k].request.begin as int,
                                        out@[k].request.length as int,
                                    )
                                },
                        decreases nb - bi,
                    {
                        let blk = blocks[bi];
                        let mut q: usize = 0;
                        while q < npeers
                            invariant
                                q <= npeers,
                                bi < nb,
                                nb == blocks@.len(),
                                i < n,
                                n == local@.len(),
                                npeers == self@.len(),
                                caps@.len() == npeers,
                                forall|p: int|
                                    0 <= p < npeers ==> caps@[p] + spec_assigned_to(out@, p)
                                        == spec_spare_capacity(#[trigger] self@[p]),
                                local@.len() == store@.len(),
                                store@.len() <= u32::MAX,
                                spec_piece_eligible(local@, store@, self@, i as int),
                                store@[i as int].index == i,
                                blk == blocks@[bi as int],
                                forall|k: int|
                                    0 <= k < blocks@.len() ==> {
                                        &&& (#[trigger] blocks@[k]).index == store@[i as int].index
                                        &&& blocks@[k].begin % BLOCK_SIZE == 0
                                        &&& blocks@[k].begin < store@[i as int].length
                                        &&& blocks@[k].length == spec_block_len(
                                            store@[i as int].length,
                                            blocks@[k].begin as int,
                                        )
                                        &&& !crate::piece::spec_range_received_full(
                                            store@[i as int],
                                            blocks@[k].begin as int,
                                            blocks@[k].length as int,
                                        )
                                    },
                                forall|k: int|
                                    0 <= k < out@.len() ==> {
                                        &&& (#[trigger] out@[k]).peer < self@.len()
                                        &&& spec_advertises(
                                            self@[out@[k].peer as int],
                                            out@[k].request.index as int,
                                        )
                                        &&& spec_piece_eligible(
                                            local@,
                                            store@,
                                            self@,
                                            out@[k].request.index as int,
                                        )
                                        &&& out@[k].request.begin % BLOCK_SIZE == 0
                                        &&& out@[k].request.begin < store@[out@[k].request.index as int].length
                                        &&& out@[k].request.length == spec_block_len(
                                            store@[out@[k].request.index as int].length,
                                            out@[k].request.begin as int,
                                        )
                                        &&& !crate::piece::spec_range_received_full(
                                            store@[out@[k].request.index as int],
                                            out@[k].request.begin as int,
                                            out@[k].request.length as int,
                                        )
                                    },
                            decreases npeers - q,
                        {
                            if caps[q] > 0 && advertises(&self.peers[q], i) {
                                let c = caps[q];
                                caps[q] = c - 1;
                                proof {
                                    assert forall|pp: int| 0 <= pp < npeers implies caps@[pp]
                                        + spec_assigned_to(
                                        out@.push(Assignment { peer: q, request: blk }),
                                        pp,
                                    ) == spec_spare_capacity(#[trigger] self@[pp]) by {
                                        lemma_assigned_to_push(
                                            out@,
                                            Assignment { peer: q, request: blk },
                                            pp,
                                        );
                                    }
                                }
                                out.push(Assignment { peer: q, request: blk });
                                proof {
                                    assert(out@[out@.len() - 1] == (Assignment {
                                        peer: q,
                                        request: blk,
                                    }));
                                }
                            }
                            q = q + 1;
                        }
                        bi = bi + 1;
                    }
                }
                i = i + 1;
            }
            out
        }
    }
}

/// This side should be interested in a peer exactly when that peer
/// advertises at least one piece this side still needs: a piece not held
/// locally and not yet fully received. Interest is kept current even while
/// choked, since peers use it to decide whether to unchoke.
pub open spec fn spec_wants_from(local: Seq<bool>, store: Seq<PieceView>, p: PeerWire) -> bool {
    exists|i: int|
        0 <= i < local.len() && i < store.len() && !local[i] && !spec_fully_received(
            #[trigger] store[i],
        ) && i < p@.peer_bitfield.len() && p@.peer_bitfield[i]
}

/// Whether the peer advertises at least one piece this side still needs.
pub fn desired_interest(p: &PeerWire, local: &BitField, store: &PieceStore) -> (r: bool)
    requires
        local@.len() == store@.len(),
        store@.len() <= u32::MAX,
    ensures
        r == spec_wants_from(local@, store@, *p),
{
    let n = local.len();
    let bf = p.peer_bitfield();
    let mut i: usize = 0;
    while i < n
        invariant
            i <= n,
            n == local@.len(),
            local@.len() == store@.len(),
            store@.len() <= u32::MAX,
            bf@ == p@.peer_bitfield,
            forall|k: int|
                0 <= k < i ==> !(0 <= k < local@.len() && k < store@.len() && !local@[k]
                    && !spec_fully_received(#[trigger] store@[k]) && k < p@.peer_bitfield.len()
                    && p@.peer_bitfield[k]),
        decreases n - i,
    {
        if !local.get(i) && !store.is_piece_fully_received(i as u32) && i < bf.len() && bf.get(i) {
            return true;
        }
        i = i + 1;
    }
    false
}

/// Brings one session's interest flag in line with the interest rule:
/// interested exactly when the peer advertises a piece this side still
/// needs. The returned frame, when the flag changed, must be sent promptly.
pub fn apply_interest_policy(p: &mut PeerWire, local: &BitField, store: &PieceStore) -> (r: Option<
    Vec<u8>,
>)
    requires
        old(p)@.state == SessionState::Established,
        local@.len() == store@.len(),
        store@.len() <= u32::MAX,
    ensures
        final(p)@.am_interested == spec_wants_from(local@, store@, *old(p)),
        r is Some <==> spec_wants_from(local@, store@, *old(p)) != old(p)@.am_interested,
        r matches Some(frame) ==> frame@ == crate::peer::enc_message(
            if spec_wants_from(local@, store@, *old(p)) {
                crate::peer::ParsedMessage::Interested
            } else {
                crate::peer::ParsedMessage::NotInterested
            },
        ),
        r is None ==> final(p)@ == old(p)@,
        r is Some ==> final(p)@ == (crate::peer::PeerWireView {
            am_interested: spec_wants_from(local@, store@, *old(p)),
            ..old(p)@
        }),
{
    let want = desired_interest(p, local, store);
    p.update_interest(want)
}

} // verus!
