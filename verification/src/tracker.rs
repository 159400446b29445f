//! The tracker client: announce and scrape response decoding, compact
//! peer-list decoding, per-endpoint failure records, and the fan-out
//! aggregation rules. The exchanges themselves are network work and live
//! outside the library; every byte that comes back is decoded here.
use vstd::prelude::*;

use crate::bencode::{
    at_seq, bytes_at, bytes_eq, dec_digits, digit, enc_bytes, enc_int, int_at, is_digit,
    lemma_at_seq_split, skip_value,
    lemma_dec_digits_shape, lemma_enc_bytes_unique, lemma_subrange_split, number_at, parse_bytes,
    parse_int, parse_u64, TOK_DICT, TOK_END, TOK_LIST,
};
use crate::errors::TrackerError;
use crate::meta_info::{
    opt_bytes_field, opt_int_field, parse_opt_bytes_field, parse_opt_int_field, req_int_field,
    try_key, KEY_FILES, KEY_NAME,
};
use crate::utils::IpAddr;

verus! {

/// Key "complete".
pub const KEY_COMPLETE: [u8; 8] = [99u8, 111u8, 109u8, 112u8, 108u8, 101u8, 116u8, 101u8];

/// Key "downloaded".
pub const KEY_DOWNLOADED: [u8; 10] = [100u8, 111u8, 119u8, 110u8, 108u8, 111u8, 97u8, 100u8, 101u8, 100u8];

/// Key "failure reason".
pub const KEY_FAILURE_REASON: [u8; 14] = [102u8, 97u8, 105u8, 108u8, 117u8, 114u8, 101u8, 32u8, 114u8, 101u8, 97u8, 115u8, 111u8, 110u8];

/// Key "incomplete".
pub const KEY_INCOMPLETE: [u8; 10] = [105u8, 110u8, 99u8, 111u8, 109u8, 112u8, 108u8, 101u8, 116u8, 101u8];

/// Key "interval".
pub const KEY_INTERVAL: [u8; 8] = [105u8, 110u8, 116u8, 101u8, 114u8, 118u8, 97u8, 108u8];

/// Key "min interval".
pub const KEY_MIN_INTERVAL: [u8; 12] = [109u8, 105u8, 110u8, 32u8, 105u8, 110u8, 116u8, 101u8, 114u8, 118u8, 97u8, 108u8];

/// Key "peers".
pub const KEY_PEERS: [u8; 5] = [112u8, 101u8, 101u8, 114u8, 115u8];

/// Key "tracker id".
pub const KEY_TRACKER_ID: [u8; 10] = [116u8, 114u8, 97u8, 99u8, 107u8, 101u8, 114u8, 32u8, 105u8, 100u8];

/// Key "warning message".
pub const KEY_WARNING_MESSAGE: [u8; 15] = [119u8, 97u8, 114u8, 110u8, 105u8, 110u8, 103u8, 32u8, 109u8, 101u8, 115u8, 115u8, 97u8, 103u8, 101u8];

/// Key "ip".
pub const KEY_IP: [u8; 2] = [105u8, 112u8];

/// Key "peer id".
pub const KEY_PEER_ID: [u8; 7] = [112u8, 101u8, 101u8, 114u8, 32u8, 105u8, 100u8];

/// Key "port".
pub const KEY_PORT: [u8; 4] = [112u8, 111u8, 114u8, 116u8];

/// One peer as a tracker reports it: optional peer id, host, port.
pub struct TrackerPeer {
    pub peer_id: Option<Vec<u8>>,
    pub ip: IpAddr,
    pub port: u16,
}

/// A peer list as it arrives: a compact binary blob, or one dictionary per
/// peer.
pub enum Peers {
    ByteBuf(Vec<u8>),
    PeerStruct(Vec<TrackerPeer>),
}

/// A decoded announce response.
pub struct TrackerAnnounceResponse {
    pub complete: i64,
    pub downloaded: Option<i64>,
    pub incomplete: i64,
    pub interval: i64,
    pub peers: Peers,
    pub min_interval: Option<i64>,
    pub failure_reason: Option<Vec<u8>>,
    pub tracker_id: Option<Vec<u8>>,
    pub warning_message: Option<Vec<u8>>,
}

/// Swarm statistics for one content id.
pub struct TrackerScrapeResponseFile {
    pub complete: i64,
    pub downloaded: Option<i64>,
    pub incomplete: i64,
    pub name: Option<Vec<u8>>,
}

/// A decoded scrape response: statistics per content id, in the order the
/// tracker sent them.
pub struct TrackerScrapeResponse {
    pub files: Vec<(Vec<u8>, TrackerScrapeResponseFile)>,
    pub failure_reason: Option<Vec<u8>>,
    pub warning_message: Option<Vec<u8>>,
}

/// The port encoded in a compact peer chunk: two big-endian bytes.
pub open spec fn compact_port(hi: u8, lo: u8) -> int {
    hi * 256 + lo
}

/// `ps` is exactly the decoding of the compact blob `bytes`: one peer per
/// 6-byte chunk, big-endian IPv4 address then big-endian port, no peer id.
pub open spec fn compact_decoded(bytes: Seq<u8>, ps: Seq<TrackerPeer>) -> bool {
    &&& ps.len() == bytes.len() / 6
    &&& forall|k: int|
        0 <= k < ps.len() ==> {
            &&& (#[trigger] ps[k]).peer_id is None
            &&& ps[k].ip == IpAddr::V4(
                [bytes[6 * k], bytes[6 * k + 1], bytes[6 * k + 2], bytes[6 * k + 3]],
            )
            &&& ps[k].port == compact_port(bytes[6 * k + 4], bytes[6 * k + 5])
        }
}

/// Decodes a compact peer list: each 6-byte chunk is a big-endian IPv4
/// address followed by a big-endian port; the compact form never carries a
/// peer id. A blob that is not a whole number of chunks is undecodable.
pub fn decode_compact_peers(bytes: &[u8]) -> (r: Result<Vec<TrackerPeer>, TrackerError>)
    ensures
        r is Ok <==> bytes@.len() % 6 == 0,
        r is Err ==> r == Result::<Vec<TrackerPeer>, TrackerError>::Err(TrackerError::Undecodable),
        r matches Ok(ps) ==> compact_decoded(bytes@, ps@),
{
    let len = bytes.len();
    if len % 6 != 0 {
        return Err(TrackerError::Undecodable);
    }
    let n = len / 6;
    let mut out: Vec<TrackerPeer> = Vec::new();
    let mut k: usize = 0;
    while k < n
        invariant
            k <= n,
            n == bytes@.len() / 6,
            6 * n <= bytes@.len(),
            6 * n <= usize::MAX,
            out@.len() == k,
            forall|j: int|
                0 <= j < k ==> {
                    &&& (#[trigger] out@[j]).peer_id is None
                    &&& out@[j].ip == IpAddr::V4(
                        [
                            bytes@[6 * j],
                            bytes@[6 * j + 1],
                            bytes@[6 * j + 2],
                            bytes@[6 * j + 3],
                        ],
                    )
                    &&& out@[j].port == compact_port(bytes@[6 * j + 4], bytes@[6 * j + 5])
                },
        decreases n - k,
    {
        let base = 6 * k;
        let ip = IpAddr::V4([bytes[base], bytes[base + 1], bytes[base + 2], bytes[base + 3]]);
        let port: u16 = ((bytes[base + 4] as u16) << 8) | (bytes[base + 5] as u16);
        proof {
            let hi = bytes@[6 * (k as int) + 4];
            let lo = bytes@[6 * (k as int) + 5];
            assert(((hi as u16) << 8) | (lo as u16) == hi * 256 + lo) by (bit_vector);
        }
        out.push(TrackerPeer { peer_id: None, ip, port });
        k = k + 1;
    }
    Ok(out)
}

/// The dotted-quad rendering of an IPv4 address, each octet in minimal
/// decimal.
pub open spec fn dotted_quad(a: u8, b: u8, c: u8, d: u8) -> Seq<u8> {
    dec_digits(a as nat) + seq![46u8] + dec_digits(b as nat) + seq![46u8] + dec_digits(c as nat)
        + seq![46u8] + dec_digits(d as nat)
}


proof fn lemma_dotted_quad_parts(s: Seq<u8>, a: u8, b: u8, c: u8, d: u8)
    requires
        s == dotted_quad(a, b, c, d),
        s.len() <= u64::MAX,
    ensures
        number_at(s, 0, a as u64),
        s[dec_digits(a as nat).len() as int] == 46,
        number_at(s, dec_digits(a as nat).len() + 1 as int, b as u64),
        s[dec_digits(a as nat).len() + 1 + dec_digits(b as nat).len() as int] == 46,
        number_at(
            s,
            dec_digits(a as nat).len() + dec_digits(b as nat).len() + 2 as int,
            c as u64,
        ),
        s[dec_digits(a as nat).len() + dec_digits(b as nat).len() + 2 + dec_digits(
            c as nat,
        ).len() as int] == 46,
        number_at(
            s,
            dec_digits(a as nat).len() + dec_digits(b as nat).len() + dec_digits(c as nat).len()
                + 3 as int,
            d as u64,
        ),
        s.len() == dec_digits(a as nat).len() + dec_digits(b as nat).len() + dec_digits(
            c as nat,
        ).len() + dec_digits(d as nat).len() + 3nat,
{
    let la = dec_digits(a as nat).len() as int;
    let lb = dec_digits(b as nat).len() as int;
    let lc = dec_digits(c as nat).len() as int;
    let ld = dec_digits(d as nat).len() as int;
    lemma_dec_digits_shape(a as nat);
    lemma_dec_digits_shape(b as nat);
    lemma_dec_digits_shape(c as nat);
    lemma_dec_digits_shape(d as nat);
    assert forall|k: int| 0 <= k < la implies #[trigger] s.subrange(0, la)[k] == dec_digits(
        a as nat,
    )[k] by {
        assert(s[k] == dotted_quad(a, b, c, d)[k]);
    }
    assert(s.subrange(0, la) =~= dec_digits(a as nat));
    assert forall|k: int| 0 <= k < lb implies #[trigger] s.subrange(la + 1, la + 1 + lb)[k]
        == dec_digits(b as nat)[k] by {
        assert(s[la + 1 + k] == dotted_quad(a, b, c, d)[la + 1 + k]);
    }
    assert(s.subrange(la + 1, la + 1 + lb) =~= dec_digits(b as nat));
    assert forall|k: int| 0 <= k < lc implies #[trigger] s.subrange(
        la + lb + 2,
        la + lb + 2 + lc,
    )[k] == dec_digits(c as nat)[k] by {
        assert(s[la + lb + 2 + k] == dotted_quad(a, b, c, d)[la + lb + 2 + k]);
    }
    assert(s.subrange(la + lb + 2, la + lb + 2 + lc) =~= dec_digits(c as nat));
    assert forall|k: int| 0 <= k < ld implies #[trigger] s.subrange(
        la + lb + lc + 3,
        la + lb + lc + 3 + ld,
    )[k] == dec_digits(d as nat)[k] by {
        assert(s[la + lb + lc + 3 + k] == dotted_quad(a, b, c, d)[la + lb + lc + 3 + k]);
    }
    assert(s.subrange(la + lb + lc + 3, la + lb + lc + 3 + ld) =~= dec_digits(d as nat));
}

/// Reads a dotted-quad IPv4 address out of a host byte string. When it
/// returns an address, the input is exactly that address's dotted-quad
/// rendering; and every dotted-quad rendering is read back as its address.
/// Any other host string is left to name resolution.
#[verifier::rlimit(100)]
#[verifier::spinoff_prover]
pub fn parse_ipv4_text(s: &[u8]) -> (r: Option<[u8; 4]>)
    ensures
        r matches Some(q) ==> s@ == dotted_quad(q[0], q[1], q[2], q[3]),
        forall|a: u8, b: u8, c: u8, d: u8|
            s@ == dotted_quad(a, b, c, d) ==> (r matches Some(q) && q@[0] == a && q@[1] == b
                && q@[2] == c && q@[3] == d),
{
    let len = s.len();
    proof {
        assert forall|a: u8, b: u8, c: u8, d: u8| s@ == dotted_quad(a, b, c, d) implies (
        number_at(s@, 0, a as u64) && a <= 255) by {
            lemma_dotted_quad_parts(s@, a, b, c, d);
        }
    }
    let (a, p1) = match parse_u64(s, 0) {
        None => {
            proof {
                assert forall|aa: u8, bb: u8, cc: u8, dd: u8| s@ != dotted_quad(aa, bb, cc, dd) by {
                    if s@ == dotted_quad(aa, bb, cc, dd) {
                        lemma_dotted_quad_parts(s@, aa, bb, cc, dd);
                    }
                }
            }
            return None;
        },
        Some(v) => v,
    };
    if a > 255 || p1 == len || s[p1] != 46 {
    proof {
            assert forall|aa: u8, bb: u8, cc: u8, dd: u8| s@ != dotted_quad(aa, bb, cc, dd) by {
                if s@ == dotted_quad(aa, bb, cc, dd) {
                    lemma_dotted_quad_parts(s@, aa, bb, cc, dd);
                }
            }
        }
        return None;
    }
    let (b, p2) = match parse_u64(s, p1 + 1) {
        None => {
    proof {
                assert forall|aa: u8, bb: u8, cc: u8, dd: u8| s@ != dotted_quad(aa, bb, cc, dd) by {
                    if s@ == dotted_quad(aa, bb, cc, dd) {
                        lemma_dotted_quad_parts(s@, aa, bb, cc, dd);
                    }
                }
            }
            return None;
        },
        Some(v) => v,
    };
    if b > 255 || p2 == len || s[p2] != 46 {
    proof {
            assert forall|aa: u8, bb: u8, cc: u8, dd: u8| s@ != dotted_quad(aa, bb, cc, dd) by {
                if s@ == dotted_quad(aa, bb, cc, dd) {
                    lemma_dotted_quad_parts(s@, aa, bb, cc, dd);
                }
            }
        }
        return None;
    }
    let (c, p3) = match parse_u64(s, p2 + 1) {
        None => {
    proof {
                assert forall|aa: u8, bb: u8, cc: u8, dd: u8| s@ != dotted_quad(aa, bb, cc, dd) by {
                    if s@ == dotted_quad(aa, bb, cc, dd) {
                        lemma_dotted_quad_parts(s@, aa, bb, cc, dd);
                    }
                }
            }
            return None;
        },
        Some(v) => v,
    };
    if c > 255 || p3 == len || s[p3] != 46 {
    proof {
            assert forall|aa: u8, bb: u8, cc: u8, dd: u8| s@ != dotted_quad(aa, bb, cc, dd) by {
                if s@ == dotted_quad(aa, bb, cc, dd) {
                    lemma_dotted_quad_parts(s@, aa, bb, cc, dd);
                }
            }
        }
        return None;
    }
    let (d, p4) = match parse_u64(s, p3 + 1) {
        None => {
    proof {
                assert forall|aa: u8, bb: u8, cc: u8, dd: u8| s@ != dotted_quad(aa, bb, cc, dd) by {
                    if s@ == dotted_quad(aa, bb, cc, dd) {
                        lemma_dotted_quad_parts(s@, aa, bb, cc, dd);
                    }
                }
            }
            return None;
        },
        Some(v) => v,
    };
    if d > 255 || p4 != len {
    proof {
            assert forall|aa: u8, bb: u8, cc: u8, dd: u8| s@ != dotted_quad(aa, bb, cc, dd) by {
                if s@ == dotted_quad(aa, bb, cc, dd) {
                    lemma_dotted_quad_parts(s@, aa, bb, cc, dd);
                }
            }
        }
        return None;
    }
    let q = [a as u8, b as u8, c as u8, d as u8];
    proof {
        assert(s@ =~= s@.subrange(0, p1 as int) + seq![46u8] + s@.subrange(p1 + 1, p2 as int)
            + seq![46u8] + s@.subrange(p2 + 1, p3 as int) + seq![46u8] + s@.subrange(
            p3 + 1,
            p4 as int,
        ));
        assert forall|aa: u8, bb: u8, cc: u8, dd: u8| s@ == dotted_quad(
            aa,
            bb,
            cc,
            dd,
        ) implies q@[0] == aa && q@[1] == bb && q@[2] == cc && q@[3] == dd by {
            lemma_dotted_quad_parts(s@, aa, bb, cc, dd);
        }
    }
    Some(q)
}

/// One tracker endpoint.
#[derive(Debug, Clone)]
pub struct Tracker {
    pub url: String,
}

impl Tracker {
    /// A tracker client for one endpoint.
    pub fn new(url: String) -> (r: Self)
        ensures
            r.url@ == url@,
    {
        Self { url }
    }
}

/// The record of one announce exchange: endpoint, timestamp, and its own
/// outcome.
pub struct Announce {
    pub url: Vec<u8>,
    pub at: u64,
    pub response: Result<TrackerAnnounceResponse, TrackerError>,
}


/// Decodes an announce response without insisting on the canonical form:
/// keys may come in any order, unknown keys are passed over, and the first
/// occurrence of a known key wins. The required fields must all be present.
fn parse_announce_lenient(input: &[u8], pos: usize) -> (r: Option<(TrackerAnnounceResponse, usize)>)
    requires
        pos <= input@.len(),
    ensures
        r matches Some((a, end)) ==> pos < end <= input@.len(),
{
    let len = input.len();
    if pos == len || input[pos] != TOK_DICT {
        return None;
    }
    let mut cur = pos + 1;
    let mut complete: Option<i64> = None;
    let mut downloaded: Option<i64> = None;
    let mut incomplete: Option<i64> = None;
    let mut interval: Option<i64> = None;
    let mut min_interval: Option<i64> = None;
    let mut peers: Option<Peers> = None;
    let mut failure_reason: Option<Vec<u8>> = None;
    let mut tracker_id: Option<Vec<u8>> = None;
    let mut warning_message: Option<Vec<u8>> = None;
    loop
        invariant
            pos < cur <= len,
            len == input@.len(),
        decreases len - cur,
    {
        if cur == len {
            return None;
        }
        if input[cur] == TOK_END {
            let end = cur + 1;
            let (c, i, iv) = match (complete, incomplete, interval) {
                (Some(c), Some(i), Some(iv)) => (c, i, iv),
                _ => {
                    return None;
                },
            };
            let ps = match peers {
                Some(ps) => ps,
                None => {
                    return None;
                },
            };
            return Some(
                (
                    TrackerAnnounceResponse {
                        complete: c,
                        downloaded,
                        incomplete: i,
                        interval: iv,
                        peers: ps,
                        min_interval,
                        failure_reason,
                        tracker_id,
                        warning_message,
                    },
                    end,
                ),
            );
        }
        let (key, p) = match parse_bytes(input, cur) {
            None => {
                return None;
            },
            Some(x) => x,
        };
        if bytes_eq(key.as_slice(), KEY_COMPLETE.as_slice()) {
            let (v, p2) = match parse_int(input, p) {
                None => {
                    return None;
                },
                Some(x) => x,
            };
            if complete.is_none() {
                complete = Some(v);
            }
            cur = p2;
        } else if bytes_eq(key.as_slice(), KEY_DOWNLOADED.as_slice()) {
            let (v, p2) = match parse_int(input, p) {
                None => {
                    return None;
                },
                Some(x) => x,
            };
            if downloaded.is_none() {
                downloaded = Some(v);
            }
            cur = p2;
        } else if bytes_eq(key.as_slice(), KEY_INCOMPLETE.as_slice()) {
            let (v, p2) = match parse_int(input, p) {
                None => {
                    return None;
                },
                Some(x) => x,
            };
            if incomplete.is_none() {
                incomplete = Some(v);
            }
            cur = p2;
        } else if bytes_eq(key.as_slice(), KEY_INTERVAL.as_slice()) {
            let (v, p2) = match parse_int(input, p) {
                None => {
                    return None;
                },
                Some(x) => x,
            };
            if interval.is_none() {
                interval = Some(v);
            }
            cur = p2;
        } else if bytes_eq(key.as_slice(), KEY_MIN_INTERVAL.as_slice()) {
            let (v, p2) = match parse_int(input, p) {
                None => {
                    return None;
                },
                Some(x) => x,
            };
            if min_interval.is_none() {
                min_interval = Some(v);
            }
            cur = p2;
        } else if bytes_eq(key.as_slice(), KEY_PEERS.as_slice()) {
            let (v, p2) = match parse_peers_value(input, p) {
                None => {
                    return None;
                },
                Some(x) => x,
            };
            if peers.is_none() {
                peers = Some(v);
            }
            cur = p2;
        } else if bytes_eq(key.as_slice(), KEY_FAILURE_REASON.as_slice()) {
            let (v, p2) = match parse_bytes(input, p) {
                None => {
                    return None;
                },
                Some(x) => x,
            };
            if failure_reason.is_none() {
                failure_reason = Some(v);
            }
            cur = p2;
        } else if bytes_eq(key.as_slice(), KEY_TRACKER_ID.as_slice()) {
            let (v, p2) = match parse_bytes(input, p) {
                None => {
                    return None;
                },
                Some(x) => x,
            };
            if tracker_id.is_none() {
                tracker_id = Some(v);
            }
            cur = p2;
        } else if bytes_eq(key.as_slice(), KEY_WARNING_MESSAGE.as_slice()) {
            let (v, p2) = match parse_bytes(input, p) {
                None => {
                    return None;
                },
                Some(x) => x,
            };
            if warning_message.is_none() {
                warning_message = Some(v);
            }
            cur = p2;
        } else {
            cur = match skip_value(input, p) {
                None => {
                    return None;
                },
                Some(e) => e,
            };
        }
    }
}

impl Announce {
    /// Whether this exchange succeeded.
    pub fn is_ok(&self) -> (r: bool)
        ensures
            r == (self.response is Ok),
    {
        self.response.is_ok()
    }

    /// Whether this exchange failed.
    pub fn is_err(&self) -> (r: bool)
        ensures
            r == (self.response is Err),
    {
        self.response.is_err()
    }
}

/// The record of one scrape exchange: endpoint, timestamp, and its own
/// outcome.
pub struct Scrape {
    pub url: Vec<u8>,
    pub at: u64,
    pub response: Result<TrackerScrapeResponse, TrackerError>,
}


/// Decodes a scrape response without insisting on the canonical form: keys
/// may come in any order, unknown keys are passed over, and the first
/// occurrence of a known key wins. The statistics dictionary must be
/// present.
fn parse_scrape_lenient(input: &[u8], pos: usize) -> (r: Option<(TrackerScrapeResponse, usize)>)
    requires
        pos <= input@.len(),
    ensures
        r matches Some((v, end)) ==> pos < end <= input@.len(),
{
    let len = input.len();
    if pos == len || input[pos] != TOK_DICT {
        return None;
    }
    let mut cur = pos + 1;
    let mut files: Option<Vec<(Vec<u8>, TrackerScrapeResponseFile)>> = None;
    let mut failure_reason: Option<Vec<u8>> = None;
    let mut warning_message: Option<Vec<u8>> = None;
    loop
        invariant
            pos < cur <= len,
            len == input@.len(),
        decreases len - cur,
    {
        if cur == len {
            return None;
        }
        if input[cur] == TOK_END {
            let end = cur + 1;
            let fs = match files {
                Some(fs) => fs,
                None => {
                    return None;
                },
            };
            return Some(
                (TrackerScrapeResponse { files: fs, failure_reason, warning_message }, end),
            );
        }
        let (key, p) = match parse_bytes(input, cur) {
            None => {
                return None;
            },
            Some(x) => x,
        };
        if bytes_eq(key.as_slice(), KEY_FILES.as_slice()) {
            let (v, p2) = match parse_scrape_files(input, p) {
                None => {
                    return None;
                },
                Some(x) => x,
            };
            if files.is_none() {
                files = Some(v);
            }
            cur = p2;
        } else if bytes_eq(key.as_slice(), KEY_FAILURE_REASON.as_slice()) {
            let (v, p2) = match parse_bytes(input, p) {
                None => {
                    return None;
                },
                Some(x) => x,
            };
            if failure_reason.is_none() {
                failure_reason = Some(v);
            }
            cur = p2;
        } else if bytes_eq(key.as_slice(), KEY_WARNING_MESSAGE.as_slice()) {
            let (v, p2) = match parse_bytes(input, p) {
                None => {
                    return None;
                },
                Some(x) => x,
            };
            if warning_message.is_none() {
                warning_message = Some(v);
            }
            cur = p2;
        } else {
            cur = match skip_value(input, p) {
                None => {
                    return None;
                },
                Some(e) => e,
            };
        }
    }
}

impl Scrape {
    /// Whether this exchange succeeded.
    pub fn is_ok(&self) -> (r: bool)
        ensures
            r == (self.response is Ok),
    {
        self.response.is_ok()
    }

    /// Whether this exchange failed.
    pub fn is_err(&self) -> (r: bool)
        ensures
            r == (self.response is Err),
    {
        self.response.is_err()
    }
}

/// How many of a fan-out's per-endpoint results succeeded.
pub open spec fn successes(rs: Seq<Scrape>) -> nat
    decreases rs.len(),
{
    if rs.len() == 0 {
        0
    } else {
        successes(rs.drop_last()) + if rs.last().response is Ok {
            1nat
        } else {
            0nat
        }
    }
}

proof fn lemma_successes_take_step(rs: Seq<Scrape>, i: int)
    requires
        0 <= i < rs.len(),
    ensures
        successes(rs.take(i + 1)) == successes(rs.take(i)) + if rs[i].response is Ok {
            1nat
        } else {
            0nat
        },
{
    assert(rs.take(i + 1).drop_last() =~= rs.take(i));
    assert(rs.take(i + 1).last() == rs[i]);
}

/// Counts the successful exchanges of a fan-out.
pub fn count_successes(rs: &Vec<Scrape>) -> (r: usize)
    ensures
        r == successes(rs@),
{
    let n = rs.len();
    let mut i: usize = 0;
    let mut acc: usize = 0;
    proof {
        assert(rs@.take(0) =~= Seq::<Scrape>::empty());
    }
    while i < n
        invariant
            i <= n,
            n == rs@.len(),
            acc <= i,
            acc == successes(rs@.take(i as int)),
        decreases n - i,
    {
        proof {
            lemma_successes_take_step(rs@, i as int);
        }
        if rs[i].is_ok() {
            acc = acc + 1;
        }
        i = i + 1;
    }
    proof {
        assert(rs@.take(n as int) =~= rs@);
    }
    acc
}

/// Whether every endpoint of a fan-out failed: the only condition under
/// which the whole operation is surfaced as a hard error.
pub open spec fn spec_all_failed(rs: Seq<Scrape>) -> bool {
    forall|i: int| 0 <= i < rs.len() ==> (#[trigger] rs[i]).response is Err
}

/// Whether every endpoint failed.
pub fn all_failed(rs: &Vec<Scrape>) -> (r: bool)
    ensures
        r == spec_all_failed(rs@),
{
    let n = rs.len();
    let mut i: usize = 0;
    while i < n
        invariant
            i <= n,
            n == rs@.len(),
            forall|k: int| 0 <= k < i ==> (#[trigger] rs@[k]).response is Err,
        decreases n - i,
    {
        if rs[i].is_ok() {
            return false;
        }
        i = i + 1;
    }
    true
}

/// Partial-failure tolerance: a fan-out with at least one successful
/// result is never a fatal condition, however many endpoints failed.
pub proof fn lemma_fan_out_partial_failure(rs: Seq<Scrape>)
    requires
        successes(rs) >= 1,
    ensures
        !spec_all_failed(rs),
    decreases rs.len(),
{
    if rs.len() > 0 {
        if rs.last().response is Ok {
            assert(rs[rs.len() - 1].response is Ok);
        } else {
            lemma_fan_out_partial_failure(rs.drop_last());
            let i = choose|i: int|
                0 <= i < rs.drop_last().len() && !((#[trigger] rs.drop_last()[i]).response is Err);
            assert(rs[i].response is Ok);
        }
    }
}

impl TrackerAnnounceResponse {
    /// The delay before the next announce: the response's interval, with
    /// `min interval`, when present, as a hard floor.
    pub fn reannounce_interval(&self) -> (r: i64)
        ensures
            r == (match self.min_interval {
                Some(m) => if m > self.interval {
                    m
                } else {
                    self.interval
                },
                None => self.interval,
            }),
    {
        match self.min_interval {
            Some(m) => if m > self.interval {
                m
            } else {
                self.interval
            },
            None => self.interval,
        }
    }
}

/// The host text of a peer address: a dotted quad for v4, the raw bytes
/// otherwise.
pub open spec fn ip_text(ip: IpAddr) -> Seq<u8> {
    match ip {
        IpAddr::V4(q) => dotted_quad(q[0], q[1], q[2], q[3]),
        IpAddr::V6(b) => b@,
        IpAddr::DNS(h) => h@,
    }
}

/// Canonical encoding of one peer dictionary.
pub open spec fn enc_peer(p: TrackerPeer) -> Seq<u8> {
    seq![TOK_DICT] + (enc_bytes(KEY_IP@) + enc_bytes(ip_text(p.ip))) + opt_bytes_field(
        KEY_PEER_ID@,
        p.peer_id,
    ) + (enc_bytes(KEY_PORT@) + enc_int(p.port as int)) + seq![TOK_END]
}

/// Concatenated encodings of the peer dictionaries.
pub open spec fn enc_peer_items(l: Seq<TrackerPeer>) -> Seq<u8>
    decreases l.len(),
{
    if l.len() == 0 {
        Seq::empty()
    } else {
        enc_peer_items(l.drop_last()) + enc_peer(l.last())
    }
}

/// Canonical encoding of a dictionary-form peer list.
pub open spec fn enc_peer_list(l: Seq<TrackerPeer>) -> Seq<u8> {
    seq![TOK_LIST] + enc_peer_items(l) + seq![TOK_END]
}

/// Canonical encoding of a peer list in either of its two forms.
pub open spec fn enc_peers(p: Peers) -> Seq<u8> {
    match p {
        Peers::ByteBuf(b) => enc_bytes(b@),
        Peers::PeerStruct(ps) => enc_peer_list(ps@),
    }
}

/// Canonical encoding of an announce response.
pub open spec fn enc_announce(r: TrackerAnnounceResponse) -> Seq<u8> {
    seq![TOK_DICT] + req_int_field(KEY_COMPLETE@, r.complete) + opt_int_field(
        KEY_DOWNLOADED@,
        r.downloaded,
    ) + opt_bytes_field(KEY_FAILURE_REASON@, r.failure_reason) + req_int_field(
        KEY_INCOMPLETE@,
        r.incomplete,
    ) + req_int_field(KEY_INTERVAL@, r.interval) + opt_int_field(KEY_MIN_INTERVAL@, r.min_interval)
        + (enc_bytes(KEY_PEERS@) + enc_peers(r.peers)) + opt_bytes_field(
        KEY_TRACKER_ID@,
        r.tracker_id,
    ) + opt_bytes_field(KEY_WARNING_MESSAGE@, r.warning_message) + seq![TOK_END]
}

/// Canonical encoding of one scrape statistics entry.
pub open spec fn enc_scrape_file(f: TrackerScrapeResponseFile) -> Seq<u8> {
    seq![TOK_DICT] + req_int_field(KEY_COMPLETE@, f.complete) + opt_int_field(
        KEY_DOWNLOADED@,
        f.downloaded,
    ) + req_int_field(KEY_INCOMPLETE@, f.incomplete) + opt_bytes_field(KEY_NAME@, f.name)
        + seq![TOK_END]
}

/// Concatenated encodings of the per-content statistics entries.
pub open spec fn enc_scrape_items(l: Seq<(Vec<u8>, TrackerScrapeResponseFile)>) -> Seq<u8>
    decreases l.len(),
{
    if l.len() == 0 {
        Seq::empty()
    } else {
        enc_scrape_items(l.drop_last()) + (enc_bytes(l.last().0@) + enc_scrape_file(l.last().1))
    }
}

/// Canonical encoding of a scrape response.
pub open spec fn enc_scrape(r: TrackerScrapeResponse) -> Seq<u8> {
    seq![TOK_DICT] + opt_bytes_field(KEY_FAILURE_REASON@, r.failure_reason) + (enc_bytes(
        KEY_FILES@,
    ) + seq![TOK_DICT] + enc_scrape_items(r.files@) + seq![TOK_END]) + opt_bytes_field(
        KEY_WARNING_MESSAGE@,
        r.warning_message,
    ) + seq![TOK_END]
}


proof fn lemma_peer_at_parts(s: Seq<u8>, pos: int, p: TrackerPeer)
    requires
        at_seq(s, pos, enc_peer(p)),
        s.len() <= u64::MAX,
    ensures
        s[pos] == TOK_DICT,
        at_seq(s, pos + 1, enc_bytes(KEY_IP@) + enc_bytes(ip_text(p.ip))),
        at_seq(
            s,
            pos + 1 + enc_bytes(KEY_IP@).len() + enc_bytes(ip_text(p.ip)).len(),
            opt_bytes_field(KEY_PEER_ID@, p.peer_id),
        ),
        p.peer_id is None ==> !bytes_at(
            s,
            pos + 1 + enc_bytes(KEY_IP@).len() + enc_bytes(ip_text(p.ip)).len(),
            KEY_PEER_ID@,
        ),
        at_seq(
            s,
            pos + 1 + enc_bytes(KEY_IP@).len() + enc_bytes(ip_text(p.ip)).len()
                + opt_bytes_field(KEY_PEER_ID@, p.peer_id).len(),
            enc_bytes(KEY_PORT@) + enc_int(p.port as int),
        ),
        pos + enc_peer(p).len() - 1 < s.len() && s[pos + enc_peer(p).len() - 1] == TOK_END,
        enc_peer(p).len() == 1 + enc_bytes(KEY_IP@).len() + enc_bytes(ip_text(p.ip)).len()
            + opt_bytes_field(KEY_PEER_ID@, p.peer_id).len() + enc_bytes(KEY_PORT@).len()
            + enc_int(p.port as int).len() + 1,
{
    let a = enc_bytes(KEY_IP@) + enc_bytes(ip_text(p.ip));
    let b = opt_bytes_field(KEY_PEER_ID@, p.peer_id);
    let c = enc_bytes(KEY_PORT@) + enc_int(p.port as int);
    assert(enc_peer(p) =~= (seq![TOK_DICT] + a + b + c) + seq![TOK_END]);
    lemma_at_seq_split(s, pos, seq![TOK_DICT] + a + b + c, seq![TOK_END]);
    assert(seq![TOK_DICT] + a + b + c =~= (seq![TOK_DICT] + a + b) + c);
    lemma_at_seq_split(s, pos, seq![TOK_DICT] + a + b, c);
    assert(seq![TOK_DICT] + a + b =~= (seq![TOK_DICT] + a) + b);
    lemma_at_seq_split(s, pos, seq![TOK_DICT] + a, b);
    lemma_at_seq_split(s, pos, seq![TOK_DICT], a);
    assert(s.subrange(pos, pos + 1)[0] == s[pos]);
    assert(s.subrange(
        pos + enc_peer(p).len() - 1,
        pos + enc_peer(p).len() as int,
    )[0] == s[pos + enc_peer(p).len() - 1]);
    if p.peer_id is None {
        let c2 = pos + 1 + a.len() as int;
        lemma_at_seq_split(s, c2, enc_bytes(KEY_PORT@), enc_int(p.port as int));
        if bytes_at(s, c2, KEY_PEER_ID@) {
            assert(at_seq(s, c2, enc_bytes(KEY_PEER_ID@)));
            lemma_enc_bytes_unique(s, c2, KEY_PEER_ID@, KEY_PORT@);
            assert(KEY_PEER_ID@.len() == 7 && KEY_PORT@.len() == 4);
        }
    }
}

/// Parses one canonical peer dictionary, classifying its host as an IPv4
/// address when the host text is a dotted quad and as a name otherwise;
/// every whole canonical peer dictionary is read back.
#[verifier::rlimit(100)]
#[verifier::spinoff_prover]
pub fn parse_peer(input: &[u8], pos: usize) -> (r: Option<(TrackerPeer, usize)>)
    requires
        pos <= input@.len(),
    ensures
        r matches Some((p, end)) ==> pos < end <= input@.len() && input@.subrange(
            pos as int,
            end as int,
        ) == enc_peer(p),
        forall|pv: TrackerPeer|
            at_seq(input@, pos as int, enc_peer(pv)) ==> (r matches Some(v) && v.1 == pos
                + enc_peer(pv).len()),
{
    let len = input.len();
    if pos == len || input[pos] != TOK_DICT {
    proof {
        assert forall|pv: TrackerPeer| !at_seq(input@, pos as int, enc_peer(pv)) by {
            if at_seq(input@, pos as int, enc_peer(pv)) {
                lemma_peer_at_parts(input@, pos as int, pv);
            }
        }
    }
        return None;
    }
    let mut cur = pos + 1;
    let ghost c0 = seq![TOK_DICT];
    proof {
        assert(input@.subrange(pos as int, cur as int) =~= c0);
    }
    // ip (required)
    let p = match try_key(input, cur, KEY_IP.as_slice()) {
        None => {
    proof {
        assert forall|pv: TrackerPeer| !at_seq(input@, pos as int, enc_peer(pv)) by {
            if at_seq(input@, pos as int, enc_peer(pv)) {
                lemma_peer_at_parts(input@, pos as int, pv);
                lemma_at_seq_split(
                    input@,
                    pos + 1,
                    enc_bytes(KEY_IP@),
                    enc_bytes(ip_text(pv.ip)),
                );
                assert(bytes_at(
                    input@,
                    pos + 1 + enc_bytes(KEY_IP@).len(),
                    ip_text(pv.ip),
                ));
            }
        }
    }
            return None;
        },
        Some(p) => p,
    };
    let (ip_bytes, p2) = match parse_bytes(input, p) {
        None => {
    proof {
        assert forall|pv: TrackerPeer| !at_seq(input@, pos as int, enc_peer(pv)) by {
            if at_seq(input@, pos as int, enc_peer(pv)) {
                lemma_peer_at_parts(input@, pos as int, pv);
                lemma_at_seq_split(
                    input@,
                    pos + 1,
                    enc_bytes(KEY_IP@),
                    enc_bytes(ip_text(pv.ip)),
                );
                assert(bytes_at(
                    input@,
                    pos + 1 + enc_bytes(KEY_IP@).len(),
                    ip_text(pv.ip),
                ));
            }
        }
    }
            return None;
        },
        Some(x) => x,
    };
    proof {
        lemma_subrange_split(input@, cur as int, p as int, p2 as int);
        lemma_subrange_split(input@, pos as int, cur as int, p2 as int);
    }
    let ip = match parse_ipv4_text(ip_bytes.as_slice()) {
        Some(q) => IpAddr::V4(q),
        None => IpAddr::DNS(ip_bytes),
    };
    cur = p2;
    let ghost c1 = c0 + (enc_bytes(KEY_IP@) + enc_bytes(ip_text(ip)));
    proof {
        assert(input@.subrange(pos as int, cur as int) == c1);
    }
    // peer id (optional)
    let (peer_id, p3) = match parse_opt_bytes_field(input, cur, KEY_PEER_ID.as_slice()) {
        None => {
    proof {
        assert forall|pv: TrackerPeer| !at_seq(input@, pos as int, enc_peer(pv)) by {
            if at_seq(input@, pos as int, enc_peer(pv)) {
                lemma_peer_at_parts(input@, pos as int, pv);
                lemma_at_seq_split(
                    input@,
                    pos + 1,
                    enc_bytes(KEY_IP@),
                    enc_bytes(ip_text(pv.ip)),
                );
                assert(bytes_at(
                    input@,
                    pos + 1 + enc_bytes(KEY_IP@).len(),
                    ip_text(pv.ip),
                ));
                let c2 = pos + 1 + enc_bytes(KEY_IP@).len() + enc_bytes(ip_text(pv.ip)).len();
                match pv.peer_id {
                    Option::Some(x) => {
                        lemma_at_seq_split(input@, c2, enc_bytes(KEY_PEER_ID@), enc_bytes(x@));
                        assert(bytes_at(input@, c2 + enc_bytes(KEY_PEER_ID@).len(), x@));
                    },
                    Option::None => {},
                }
            }
        }
    }
            return None;
        },
        Some(x) => x,
    };
    proof {
        lemma_subrange_split(input@, pos as int, cur as int, p3 as int);
    }
    cur = p3;
    let ghost c2 = c1 + opt_bytes_field(KEY_PEER_ID@, peer_id);
    proof {
        assert(input@.subrange(pos as int, cur as int) == c2);
    }
    // port (required)
    let p = match try_key(input, cur, KEY_PORT.as_slice()) {
        None => {
    proof {
        assert forall|pv: TrackerPeer| !at_seq(input@, pos as int, enc_peer(pv)) by {
            if at_seq(input@, pos as int, enc_peer(pv)) {
                lemma_peer_at_parts(input@, pos as int, pv);
                lemma_at_seq_split(
                    input@,
                    pos + 1,
                    enc_bytes(KEY_IP@),
                    enc_bytes(ip_text(pv.ip)),
                );
                assert(bytes_at(
                    input@,
                    pos + 1 + enc_bytes(KEY_IP@).len(),
                    ip_text(pv.ip),
                ));
                let c2 = pos + 1 + enc_bytes(KEY_IP@).len() + enc_bytes(ip_text(pv.ip)).len();
                match pv.peer_id {
                    Option::Some(x) => {
                        lemma_at_seq_split(input@, c2, enc_bytes(KEY_PEER_ID@), enc_bytes(x@));
                        assert(bytes_at(input@, c2 + enc_bytes(KEY_PEER_ID@).len(), x@));
                    },
                    Option::None => {},
                }
                let c3 = c2 + opt_bytes_field(KEY_PEER_ID@, pv.peer_id).len();
                lemma_at_seq_split(input@, c3, enc_bytes(KEY_PORT@), enc_int(pv.port as int));
                assert(int_at(input@, c3 + enc_bytes(KEY_PORT@).len(), pv.port as i64));
            }
        }
    }
            return None;
        },
        Some(p) => p,
    };
    let (port_v, p4) = match parse_int(input, p) {
        None => {
    proof {
        assert forall|pv: TrackerPeer| !at_seq(input@, pos as int, enc_peer(pv)) by {
            if at_seq(input@, pos as int, enc_peer(pv)) {
                lemma_peer_at_parts(input@, pos as int, pv);
                lemma_at_seq_split(
                    input@,
                    pos + 1,
                    enc_bytes(KEY_IP@),
                    enc_bytes(ip_text(pv.ip)),
                );
                assert(bytes_at(
                    input@,
                    pos + 1 + enc_bytes(KEY_IP@).len(),
                    ip_text(pv.ip),
                ));
                let c2 = pos + 1 + enc_bytes(KEY_IP@).len() + enc_bytes(ip_text(pv.ip)).len();
                match pv.peer_id {
                    Option::Some(x) => {
                        lemma_at_seq_split(input@, c2, enc_bytes(KEY_PEER_ID@), enc_bytes(x@));
                        assert(bytes_at(input@, c2 + enc_bytes(KEY_PEER_ID@).len(), x@));
                    },
                    Option::None => {},
                }
                let c3 = c2 + opt_bytes_field(KEY_PEER_ID@, pv.peer_id).len();
                lemma_at_seq_split(input@, c3, enc_bytes(KEY_PORT@), enc_int(pv.port as int));
                assert(int_at(input@, c3 + enc_bytes(KEY_PORT@).len(), pv.port as i64));
            }
        }
    }
            return None;
        },
        Some(x) => x,
    };
    if port_v < 0 || port_v > 65535 {
    proof {
        assert forall|pv: TrackerPeer| !at_seq(input@, pos as int, enc_peer(pv)) by {
            if at_seq(input@, pos as int, enc_peer(pv)) {
                lemma_peer_at_parts(input@, pos as int, pv);
                lemma_at_seq_split(
                    input@,
                    pos + 1,
                    enc_bytes(KEY_IP@),
                    enc_bytes(ip_text(pv.ip)),
                );
                assert(bytes_at(
                    input@,
                    pos + 1 + enc_bytes(KEY_IP@).len(),
                    ip_text(pv.ip),
                ));
                let c2 = pos + 1 + enc_bytes(KEY_IP@).len() + enc_bytes(ip_text(pv.ip)).len();
                match pv.peer_id {
                    Option::Some(x) => {
                        lemma_at_seq_split(input@, c2, enc_bytes(KEY_PEER_ID@), enc_bytes(x@));
                        assert(bytes_at(input@, c2 + enc_bytes(KEY_PEER_ID@).len(), x@));
                    },
                    Option::None => {},
                }
                let c3 = c2 + opt_bytes_field(KEY_PEER_ID@, pv.peer_id).len();
                lemma_at_seq_split(input@, c3, enc_bytes(KEY_PORT@), enc_int(pv.port as int));
                assert(int_at(input@, c3 + enc_bytes(KEY_PORT@).len(), pv.port as i64));
            }
        }
    }
        return None;
    }
    proof {
        lemma_subrange_split(input@, cur as int, p as int, p4 as int);
        lemma_subrange_split(input@, pos as int, cur as int, p4 as int);
    }
    cur = p4;
    let port = port_v as u16;
    let ghost c3 = c2 + (enc_bytes(KEY_PORT@) + enc_int(port as int));
    proof {
        assert(input@.subrange(pos as int, cur as int) == c3);
    }
    if cur == len || input[cur] != TOK_END {
    proof {
        assert forall|pv: TrackerPeer| !at_seq(input@, pos as int, enc_peer(pv)) by {
            if at_seq(input@, pos as int, enc_peer(pv)) {
                lemma_peer_at_parts(input@, pos as int, pv);
                lemma_at_seq_split(
                    input@,
                    pos + 1,
                    enc_bytes(KEY_IP@),
                    enc_bytes(ip_text(pv.ip)),
                );
                assert(bytes_at(
                    input@,
                    pos + 1 + enc_bytes(KEY_IP@).len(),
                    ip_text(pv.ip),
                ));
                let c2 = pos + 1 + enc_bytes(KEY_IP@).len() + enc_bytes(ip_text(pv.ip)).len();
                match pv.peer_id {
                    Option::Some(x) => {
                        lemma_at_seq_split(input@, c2, enc_bytes(KEY_PEER_ID@), enc_bytes(x@));
                        assert(bytes_at(input@, c2 + enc_bytes(KEY_PEER_ID@).len(), x@));
                    },
                    Option::None => {},
                }
                let c3 = c2 + opt_bytes_field(KEY_PEER_ID@, pv.peer_id).len();
                lemma_at_seq_split(input@, c3, enc_bytes(KEY_PORT@), enc_int(pv.port as int));
                assert(int_at(input@, c3 + enc_bytes(KEY_PORT@).len(), pv.port as i64));
            }
        }
    }
        return None;
    }
    let peer = TrackerPeer { peer_id, ip, port };
    proof {
        lemma_subrange_split(input@, pos as int, cur as int, cur + 1);
        assert(input@.subrange(cur as int, cur + 1) =~= seq![TOK_END]);
        assert(input@.subrange(pos as int, cur + 1) == c3 + seq![TOK_END]);
        assert(c3 + seq![TOK_END] == enc_peer(peer));
        assert forall|pv: TrackerPeer|
            at_seq(input@, pos as int, enc_peer(pv)) implies cur + 1 == pos + enc_peer(
            pv,
        ).len() by {
            lemma_peer_at_parts(input@, pos as int, pv);
            lemma_at_seq_split(input@, pos + 1, enc_bytes(KEY_IP@), enc_bytes(ip_text(pv.ip)));
            assert(bytes_at(input@, pos + 1 + enc_bytes(KEY_IP@).len(), ip_text(pv.ip)));
            let c2g = pos + 1 + enc_bytes(KEY_IP@).len() + enc_bytes(ip_text(pv.ip)).len();
            match pv.peer_id {
                Option::Some(x) => {
                    lemma_at_seq_split(input@, c2g, enc_bytes(KEY_PEER_ID@), enc_bytes(x@));
                    assert(bytes_at(input@, c2g + enc_bytes(KEY_PEER_ID@).len(), x@));
                },
                Option::None => {},
            }
            let c3g = c2g + opt_bytes_field(KEY_PEER_ID@, pv.peer_id).len();
            lemma_at_seq_split(input@, c3g, enc_bytes(KEY_PORT@), enc_int(pv.port as int));
            assert(int_at(input@, c3g + enc_bytes(KEY_PORT@).len(), pv.port as i64));
        }
    }
    Some((peer, cur + 1))
}


proof fn lemma_peer_items_prefix(l: Seq<TrackerPeer>, m: int)
    requires
        0 <= m <= l.len(),
    ensures
        enc_peer_items(l.take(m)).len() <= enc_peer_items(l).len(),
        enc_peer_items(l).subrange(0, enc_peer_items(l.take(m)).len() as int) == enc_peer_items(
            l.take(m),
        ),
        m < l.len() ==> enc_peer_items(l.take(m)).len() + enc_peer(l[m]).len() <= enc_peer_items(
            l,
        ).len() && enc_peer_items(l).subrange(
            enc_peer_items(l.take(m)).len() as int,
            enc_peer_items(l.take(m)).len() + enc_peer(l[m]).len() as int,
        ) == enc_peer(l[m]),
    decreases l.len() - m,
{
    if m == l.len() {
        assert(l.take(m) =~= l);
    } else {
        assert(l.take(m + 1).drop_last() =~= l.take(m));
        assert(l.take(m + 1).last() == l[m]);
        assert(enc_peer_items(l.take(m + 1)) == enc_peer_items(l.take(m)) + enc_peer(l[m]));
        lemma_peer_items_prefix(l, m + 1);
        let lm = enc_peer_items(l.take(m)).len() as int;
        let li = enc_peer(l[m]).len() as int;
        assert forall|k: int| 0 <= k < lm implies #[trigger] enc_peer_items(l).subrange(
            0,
            lm,
        )[k] == enc_peer_items(l.take(m))[k] by {
            assert(enc_peer_items(l).subrange(0, lm + li)[k] == enc_peer_items(l.take(m + 1))[k]);
            assert(enc_peer_items(l).subrange(0, lm + li)[k] == enc_peer_items(l)[k]);
            assert(enc_peer_items(l).subrange(0, lm)[k] == enc_peer_items(l)[k]);
            assert(enc_peer_items(l.take(m + 1))[k] == enc_peer_items(l.take(m))[k]);
        }
        assert(enc_peer_items(l).subrange(0, lm) =~= enc_peer_items(l.take(m)));
        assert forall|k: int| 0 <= k < li implies #[trigger] enc_peer_items(l).subrange(
            lm,
            lm + li,
        )[k] == enc_peer(l[m])[k] by {
            assert(enc_peer_items(l).subrange(0, lm + li)[lm + k] == enc_peer_items(
                l.take(m + 1),
            )[lm + k]);
            assert(enc_peer_items(l).subrange(0, lm + li)[lm + k] == enc_peer_items(l)[lm + k]);
            assert(enc_peer_items(l).subrange(lm, lm + li)[k] == enc_peer_items(l)[lm + k]);
            assert(enc_peer_items(l.take(m + 1))[lm + k] == enc_peer(l[m])[k]);
        }
        assert(enc_peer_items(l).subrange(lm, lm + li) =~= enc_peer(l[m]));
    }
}

/// Parses a canonical dictionary-form peer list; every whole canonical peer
/// list is read back.
#[verifier::rlimit(100)]
#[verifier::spinoff_prover]
pub fn parse_peer_list(input: &[u8], pos: usize) -> (r: Option<(Vec<TrackerPeer>, usize)>)
    requires
        pos <= input@.len(),
    ensures
        r matches Some((l, end)) ==> pos < end <= input@.len() && input@.subrange(
            pos as int,
            end as int,
        ) == enc_peer_list(l@),
        forall|l: Seq<TrackerPeer>|
            at_seq(input@, pos as int, enc_peer_list(l)) ==> (r matches Some(v) && v.1 == pos
                + enc_peer_list(l).len()),
{
    let len = input.len();
    if pos == len || input[pos] != TOK_LIST {
        proof {
            assert forall|l: Seq<TrackerPeer>| !at_seq(input@, pos as int, enc_peer_list(l)) by {
                if at_seq(input@, pos as int, enc_peer_list(l)) {
                    assert(input@.subrange(pos as int, pos + enc_peer_list(l).len() as int)[0]
                        == enc_peer_list(l)[0]);
                }
            }
        }
        return None;
    }
    let mut items: Vec<TrackerPeer> = Vec::new();
    let mut cur = pos + 1;
    proof {
        assert(input@.subrange(pos + 1, cur as int) =~= enc_peer_items(items@));
        assert(enc_peer_items(Seq::<TrackerPeer>::empty()) =~= Seq::<u8>::empty());
    }
    loop
        invariant
            pos + 1 <= cur <= len,
            len == input@.len(),
            input@[pos as int] == TOK_LIST,
            input@.subrange(pos + 1, cur as int) == enc_peer_items(items@),
            forall|l: Seq<TrackerPeer>|
                at_seq(input@, pos as int, enc_peer_list(l)) ==> (items@.len() <= l.len() && cur
                    == pos + 1 + enc_peer_items(l.take(items@.len() as int)).len()),
        decreases len - cur,
    {
        let ghost j = items@.len() as int;
        proof {
            assert forall|l: Seq<TrackerPeer>|
                at_seq(input@, pos as int, enc_peer_list(l)) && j < l.len() implies at_seq(
                input@,
                cur as int,
                enc_peer(l[j]),
            ) by {
                lemma_at_seq_split(
                    input@,
                    pos as int,
                    seq![TOK_LIST] + enc_peer_items(l),
                    seq![TOK_END],
                );
                lemma_at_seq_split(input@, pos as int, seq![TOK_LIST], enc_peer_items(l));
                lemma_peer_items_prefix(l, j);
                crate::bencode::lemma_at_seq_within(
                    input@,
                    pos + 1,
                    enc_peer_items(l),
                    enc_peer_items(l.take(j)).len() as int,
                    enc_peer(l[j]),
                );
            }
            assert forall|l: Seq<TrackerPeer>|
                at_seq(input@, pos as int, enc_peer_list(l)) && j == l.len() implies (cur < len
                    && input@[cur as int] == TOK_END && cur + 1 == pos + enc_peer_list(
                    l,
                ).len()) by {
                assert(l.take(j) =~= l);
                assert(input@.subrange(pos as int, pos + enc_peer_list(l).len() as int)[cur - pos]
                    == enc_peer_list(l)[cur - pos]);
                assert(enc_peer_list(l)[cur - pos] == TOK_END);
            }
            assert forall|l: Seq<TrackerPeer>|
                at_seq(input@, pos as int, enc_peer_list(l)) && j < l.len() implies cur < len
                    && input@[cur as int] == TOK_DICT by {
                assert(input@.subrange(cur as int, cur + enc_peer(l[j]).len() as int)[0]
                    == enc_peer(l[j])[0]);
                assert(enc_peer(l[j])[0] == TOK_DICT);
            }
        }
        if cur == len {
            return None;
        }
        if input[cur] == TOK_END {
            proof {
                lemma_subrange_split(input@, pos as int, pos + 1, cur + 1);
                lemma_subrange_split(input@, pos + 1, cur as int, cur + 1);
                assert(input@.subrange(pos as int, pos + 1) =~= seq![TOK_LIST]);
                assert(input@.subrange(cur as int, cur + 1) =~= seq![TOK_END]);
                assert(input@.subrange(pos as int, cur + 1) =~= enc_peer_list(items@));
                assert forall|l: Seq<TrackerPeer>|
                    at_seq(input@, pos as int, enc_peer_list(l)) implies cur + 1 == pos
                        + enc_peer_list(l).len() by {
                    if j < l.len() {
                        assert(input@[cur as int] == TOK_DICT);
                        assert(false);
                    }
                }
            }
            return Some((items, cur + 1));
        }
        let (v, p) = match parse_peer(input, cur) {
            None => {
                proof {
                    assert forall|l: Seq<TrackerPeer>| !at_seq(
                        input@,
                        pos as int,
                        enc_peer_list(l),
                    ) by {
                        if at_seq(input@, pos as int, enc_peer_list(l)) {
                            if j == l.len() {
                                assert(input@[cur as int] == TOK_END);
                            }
                            assert(false);
                        }
                    }
                }
                return None;
            },
            Some(x) => x,
        };
        proof {
            lemma_subrange_split(input@, pos + 1, cur as int, p as int);
            assert(items@.push(v).drop_last() =~= items@);
            assert(items@.push(v).last() == v);
            assert forall|l: Seq<TrackerPeer>|
                at_seq(input@, pos as int, enc_peer_list(l)) implies (items@.push(v).len()
                    <= l.len() && p == pos + 1 + enc_peer_items(
                    l.take(items@.push(v).len() as int),
                ).len()) by {
                if j == l.len() {
                    assert(input@[cur as int] == TOK_END);
                    assert(false);
                }
                assert(l.take(j + 1).drop_last() =~= l.take(j));
                assert(l.take(j + 1).last() == l[j]);
                assert(enc_peer_items(l.take(j + 1)) == enc_peer_items(l.take(j)) + enc_peer(
                    l[j],
                ));
            }
        }
        items.push(v);
        cur = p;
    }
}

/// Parses a peer list in either form: a byte string is the compact form, a
/// list holds one dictionary per peer.
pub fn parse_peers_value(input: &[u8], pos: usize) -> (r: Option<(Peers, usize)>)
    requires
        pos <= input@.len(),
    ensures
        r matches Some((v, end)) ==> pos < end <= input@.len() && input@.subrange(
            pos as int,
            end as int,
        ) == enc_peers(v),
        forall|pv: Peers|
            at_seq(input@, pos as int, enc_peers(pv)) ==> (r matches Some(v) && v.1 == pos
                + enc_peers(pv).len() && ((pv matches Peers::ByteBuf(b) ==> (v.0 matches
            Peers::ByteBuf(b2) && b2@ == b@)) && (pv is PeerStruct ==> v.0 is PeerStruct))),
{
    let len = input.len();
    proof {
        assert forall|pv: Peers| at_seq(input@, pos as int, enc_peers(pv)) implies match pv {
            Peers::ByteBuf(b) => bytes_at(input@, pos as int, b@) && is_digit(
                input@[pos as int],
            ) && pos < len,
            Peers::PeerStruct(ps) => input@[pos as int] == TOK_LIST && pos < len,
        } by {
            match pv {
                Peers::ByteBuf(b) => {
                    crate::bencode::lemma_bytes_at_parts(input@, pos as int, b@);
                    lemma_dec_digits_shape(b@.len());
                    assert(input@.subrange(pos as int, pos + enc_bytes(b@).len() as int)[0]
                        == enc_bytes(b@)[0]);
                },
                Peers::PeerStruct(ps) => {
                    assert(input@.subrange(
                        pos as int,
                        pos + enc_peer_list(ps@).len() as int,
                    )[0] == enc_peer_list(ps@)[0]);
                },
            }
        }
    }
    if pos == len {
        return None;
    }
    if digit(input[pos]) {
        match parse_bytes(input, pos) {
            None => None,
            Some((b, end)) => Some((Peers::ByteBuf(b), end)),
        }
    } else if input[pos] == TOK_LIST {
        match parse_peer_list(input, pos) {
            None => None,
            Some((ps, end)) => Some((Peers::PeerStruct(ps), end)),
        }
    } else {
        None
    }
}


/// Every integer field of an announce response is above the parser's range
/// floor.
pub open spec fn announce_in_range(v: TrackerAnnounceResponse) -> bool {
    &&& v.complete > i64::MIN
    &&& v.incomplete > i64::MIN
    &&& v.interval > i64::MIN
    &&& (match v.downloaded {
        Some(d) => d > i64::MIN,
        None => true,
    })
    &&& (match v.min_interval {
        Some(m) => m > i64::MIN,
        None => true,
    })
}

/// The first run of announce fields: up to and including "incomplete".
pub open spec fn announce_g1(v: TrackerAnnounceResponse) -> Seq<u8> {
    req_int_field(KEY_COMPLETE@, v.complete) + opt_int_field(KEY_DOWNLOADED@, v.downloaded)
        + opt_bytes_field(KEY_FAILURE_REASON@, v.failure_reason) + req_int_field(
        KEY_INCOMPLETE@,
        v.incomplete,
    )
}

/// The second run of announce fields: up to and including "peers".
pub open spec fn announce_g2(v: TrackerAnnounceResponse) -> Seq<u8> {
    req_int_field(KEY_INTERVAL@, v.interval) + opt_int_field(KEY_MIN_INTERVAL@, v.min_interval)
        + (enc_bytes(KEY_PEERS@) + enc_peers(v.peers))
}

/// The final run of announce fields and the closing byte.
pub open spec fn announce_g3(v: TrackerAnnounceResponse) -> Seq<u8> {
    opt_bytes_field(KEY_TRACKER_ID@, v.tracker_id) + opt_bytes_field(
        KEY_WARNING_MESSAGE@,
        v.warning_message,
    ) + seq![TOK_END]
}

proof fn lemma_announce_g1_parts(s: Seq<u8>, pos: int, v: TrackerAnnounceResponse)
    requires
        0 <= pos,
        announce_in_range(v),
        at_seq(s, pos, announce_g1(v)),
        s.len() <= u64::MAX,
    ensures
        at_seq(s, pos, enc_bytes(KEY_COMPLETE@)),
        int_at(s, pos + enc_bytes(KEY_COMPLETE@).len(), v.complete),
        at_seq(
            s,
            pos + req_int_field(KEY_COMPLETE@, v.complete).len(),
            opt_int_field(KEY_DOWNLOADED@, v.downloaded),
        ),
        v.downloaded is None ==> !bytes_at(
            s,
            pos + req_int_field(KEY_COMPLETE@, v.complete).len(),
            KEY_DOWNLOADED@,
        ),
        at_seq(
            s,
            pos + req_int_field(KEY_COMPLETE@, v.complete).len() + opt_int_field(
                KEY_DOWNLOADED@,
                v.downloaded,
            ).len(),
            opt_bytes_field(KEY_FAILURE_REASON@, v.failure_reason),
        ),
        v.failure_reason is None ==> !bytes_at(
            s,
            pos + req_int_field(KEY_COMPLETE@, v.complete).len() + opt_int_field(
                KEY_DOWNLOADED@,
                v.downloaded,
            ).len(),
            KEY_FAILURE_REASON@,
        ),
        at_seq(
            s,
            pos + req_int_field(KEY_COMPLETE@, v.complete).len() + opt_int_field(
                KEY_DOWNLOADED@,
                v.downloaded,
            ).len() + opt_bytes_field(KEY_FAILURE_REASON@, v.failure_reason).len(),
            enc_bytes(KEY_INCOMPLETE@),
        ),
        int_at(
            s,
            pos + req_int_field(KEY_COMPLETE@, v.complete).len() + opt_int_field(
                KEY_DOWNLOADED@,
                v.downloaded,
            ).len() + opt_bytes_field(KEY_FAILURE_REASON@, v.failure_reason).len() + enc_bytes(
                KEY_INCOMPLETE@,
            ).len(),
            v.incomplete,
        ),
        announce_g1(v).len() == req_int_field(KEY_COMPLETE@, v.complete).len() + opt_int_field(
            KEY_DOWNLOADED@,
            v.downloaded,
        ).len() + opt_bytes_field(KEY_FAILURE_REASON@, v.failure_reason).len() + req_int_field(
            KEY_INCOMPLETE@,
            v.incomplete,
        ).len(),
{
    let a = req_int_field(KEY_COMPLETE@, v.complete);
    let b = opt_int_field(KEY_DOWNLOADED@, v.downloaded);
    let c = opt_bytes_field(KEY_FAILURE_REASON@, v.failure_reason);
    let d = req_int_field(KEY_INCOMPLETE@, v.incomplete);
    assert(announce_g1(v) =~= ((a + b) + c) + d);
    lemma_at_seq_split(s, pos, (a + b) + c, d);
    lemma_at_seq_split(s, pos, a + b, c);
    lemma_at_seq_split(s, pos, a, b);
    lemma_at_seq_split(s, pos, enc_bytes(KEY_COMPLETE@), enc_int(v.complete as int));
    lemma_at_seq_split(
        s,
        pos + a.len() + b.len() + c.len() as int,
        enc_bytes(KEY_INCOMPLETE@),
        enc_int(v.incomplete as int),
    );
    if v.downloaded is None {
        let c1 = pos + a.len() as int;
        match v.failure_reason {
            Option::Some(x) => {
                lemma_at_seq_split(s, c1, enc_bytes(KEY_FAILURE_REASON@), enc_bytes(x@));
                if bytes_at(s, c1, KEY_DOWNLOADED@) {
                    assert(at_seq(s, c1, enc_bytes(KEY_DOWNLOADED@)));
                    lemma_enc_bytes_unique(s, c1, KEY_DOWNLOADED@, KEY_FAILURE_REASON@);
                    assert(KEY_DOWNLOADED@ != KEY_FAILURE_REASON@) by {
                        assert(KEY_DOWNLOADED@.len() != KEY_FAILURE_REASON@.len());
                    }
                }
            },
            Option::None => {
                if bytes_at(s, c1, KEY_DOWNLOADED@) {
                    assert(at_seq(s, c1, enc_bytes(KEY_DOWNLOADED@)));
                    lemma_enc_bytes_unique(s, c1, KEY_DOWNLOADED@, KEY_INCOMPLETE@);
                    assert(KEY_DOWNLOADED@ != KEY_INCOMPLETE@) by {
                        assert(KEY_DOWNLOADED@[0] != KEY_INCOMPLETE@[0]);
                    }
                }
            },
        }
    }
    if v.failure_reason is None {
        let c2 = pos + a.len() + b.len() as int;
        if bytes_at(s, c2, KEY_FAILURE_REASON@) {
            assert(at_seq(s, c2, enc_bytes(KEY_FAILURE_REASON@)));
            lemma_enc_bytes_unique(s, c2, KEY_FAILURE_REASON@, KEY_INCOMPLETE@);
            assert(KEY_FAILURE_REASON@ != KEY_INCOMPLETE@) by {
                assert(KEY_FAILURE_REASON@.len() != KEY_INCOMPLETE@.len());
            }
        }
    }
}


proof fn lemma_announce_g2_parts(s: Seq<u8>, pos: int, v: TrackerAnnounceResponse)
    requires
        0 <= pos,
        announce_in_range(v),
        at_seq(s, pos, announce_g2(v)),
        s.len() <= u64::MAX,
    ensures
        at_seq(s, pos, enc_bytes(KEY_INTERVAL@)),
        int_at(s, pos + enc_bytes(KEY_INTERVAL@).len(), v.interval),
        at_seq(
            s,
            pos + req_int_field(KEY_INTERVAL@, v.interval).len(),
            opt_int_field(KEY_MIN_INTERVAL@, v.min_interval),
        ),
        v.min_interval is None ==> !bytes_at(
            s,
            pos + req_int_field(KEY_INTERVAL@, v.interval).len(),
            KEY_MIN_INTERVAL@,
        ),
        at_seq(
            s,
            pos + req_int_field(KEY_INTERVAL@, v.interval).len() + opt_int_field(
                KEY_MIN_INTERVAL@,
                v.min_interval,
            ).len(),
            enc_bytes(KEY_PEERS@),
        ),
        at_seq(
            s,
            pos + req_int_field(KEY_INTERVAL@, v.interval).len() + opt_int_field(
                KEY_MIN_INTERVAL@,
                v.min_interval,
            ).len() + enc_bytes(KEY_PEERS@).len(),
            enc_peers(v.peers),
        ),
        announce_g2(v).len() == req_int_field(KEY_INTERVAL@, v.interval).len() + opt_int_field(
            KEY_MIN_INTERVAL@,
            v.min_interval,
        ).len() + enc_bytes(KEY_PEERS@).len() + enc_peers(v.peers).len(),
{
    let a = req_int_field(KEY_INTERVAL@, v.interval);
    let b = opt_int_field(KEY_MIN_INTERVAL@, v.min_interval);
    let c = enc_bytes(KEY_PEERS@) + enc_peers(v.peers);
    assert(announce_g2(v) =~= (a + b) + c);
    lemma_at_seq_split(s, pos, a + b, c);
    lemma_at_seq_split(s, pos, a, b);
    lemma_at_seq_split(s, pos, enc_bytes(KEY_INTERVAL@), enc_int(v.interval as int));
    lemma_at_seq_split(
        s,
        pos + a.len() + b.len() as int,
        enc_bytes(KEY_PEERS@),
        enc_peers(v.peers),
    );
    if v.min_interval is None {
        let c1 = pos + a.len() as int;
        if bytes_at(s, c1, KEY_MIN_INTERVAL@) {
            assert(at_seq(s, c1, enc_bytes(KEY_MIN_INTERVAL@)));
            lemma_enc_bytes_unique(s, c1, KEY_MIN_INTERVAL@, KEY_PEERS@);
            assert(KEY_MIN_INTERVAL@ != KEY_PEERS@) by {
                assert(KEY_MIN_INTERVAL@.len() != KEY_PEERS@.len());
            }
        }
    }
}

proof fn lemma_announce_g3_parts(s: Seq<u8>, pos: int, v: TrackerAnnounceResponse)
    requires
        0 <= pos,
        at_seq(s, pos, announce_g3(v)),
        s.len() <= u64::MAX,
    ensures
        at_seq(s, pos, opt_bytes_field(KEY_TRACKER_ID@, v.tracker_id)),
        v.tracker_id is None ==> !bytes_at(s, pos, KEY_TRACKER_ID@),
        at_seq(
            s,
            pos + opt_bytes_field(KEY_TRACKER_ID@, v.tracker_id).len(),
            opt_bytes_field(KEY_WARNING_MESSAGE@, v.warning_message),
        ),
        v.warning_message is None ==> !bytes_at(
            s,
            pos + opt_bytes_field(KEY_TRACKER_ID@, v.tracker_id).len(),
            KEY_WARNING_MESSAGE@,
        ),
        pos + announce_g3(v).len() - 1 < s.len() && s[pos + announce_g3(v).len() - 1] == TOK_END,
        announce_g3(v).len() == opt_bytes_field(KEY_TRACKER_ID@, v.tracker_id).len()
            + opt_bytes_field(KEY_WARNING_MESSAGE@, v.warning_message).len() + 1,
{
    let a = opt_bytes_field(KEY_TRACKER_ID@, v.tracker_id);
    let b = opt_bytes_field(KEY_WARNING_MESSAGE@, v.warning_message);
    assert(announce_g3(v) =~= (a + b) + seq![TOK_END]);
    lemma_at_seq_split(s, pos, a + b, seq![TOK_END]);
    lemma_at_seq_split(s, pos, a, b);
    assert(s.subrange(
        pos + announce_g3(v).len() - 1,
        pos + announce_g3(v).len() as int,
    )[0] == s[pos + announce_g3(v).len() - 1]);
    if v.tracker_id is None {
        match v.warning_message {
            Option::Some(x) => {
                lemma_at_seq_split(s, pos, enc_bytes(KEY_WARNING_MESSAGE@), enc_bytes(x@));
                if bytes_at(s, pos, KEY_TRACKER_ID@) {
                    assert(at_seq(s, pos, enc_bytes(KEY_TRACKER_ID@)));
                    lemma_enc_bytes_unique(s, pos, KEY_TRACKER_ID@, KEY_WARNING_MESSAGE@);
                    assert(KEY_TRACKER_ID@ != KEY_WARNING_MESSAGE@) by {
                        assert(KEY_TRACKER_ID@.len() != KEY_WARNING_MESSAGE@.len());
                    }
                }
            },
            Option::None => {
                if bytes_at(s, pos, KEY_TRACKER_ID@) {
                    lemma_dec_digits_shape(KEY_TRACKER_ID@.len());
                    assert(s.subrange(pos, pos + enc_bytes(KEY_TRACKER_ID@).len() as int)[0]
                        == enc_bytes(KEY_TRACKER_ID@)[0]);
                    assert(enc_bytes(KEY_TRACKER_ID@)[0] == dec_digits(KEY_TRACKER_ID@.len())[0]);
                }
            },
        }
    }
    if v.warning_message is None {
        let c1 = pos + a.len() as int;
        if bytes_at(s, c1, KEY_WARNING_MESSAGE@) {
            lemma_dec_digits_shape(KEY_WARNING_MESSAGE@.len());
            assert(s.subrange(c1, c1 + enc_bytes(KEY_WARNING_MESSAGE@).len() as int)[0]
                == enc_bytes(KEY_WARNING_MESSAGE@)[0]);
            assert(enc_bytes(KEY_WARNING_MESSAGE@)[0] == dec_digits(KEY_WARNING_MESSAGE@.len())[0]);
        }
    }
}


#[verifier::rlimit(100)]
#[verifier::spinoff_prover]
fn parse_announce_g1(input: &[u8], pos: usize) -> (r: Option<
    ((i64, Option<i64>, Option<Vec<u8>>, i64), usize),
>)
    requires
        pos <= input@.len(),
    ensures
        r matches Some((t, end)) ==> pos < end <= input@.len() && input@.subrange(
            pos as int,
            end as int,
        ) == req_int_field(KEY_COMPLETE@, t.0) + opt_int_field(KEY_DOWNLOADED@, t.1)
            + opt_bytes_field(KEY_FAILURE_REASON@, t.2) + req_int_field(KEY_INCOMPLETE@, t.3),
        forall|v: TrackerAnnounceResponse|
            announce_in_range(v) && at_seq(input@, pos as int, announce_g1(v)) ==> (
            r matches Some(t) && t.1 == pos + announce_g1(v).len()),
{
    let len = input.len();
    let mut cur = pos;
    let p = match try_key(input, cur, KEY_COMPLETE.as_slice()) {
        None => {
            proof {
                assert forall|v: TrackerAnnounceResponse| !(announce_in_range(v) && at_seq(input@, pos as int, announce_g1(v))) by {
                    if announce_in_range(v) && at_seq(input@, pos as int, announce_g1(v)) {
                        lemma_announce_g1_parts(input@, pos as int, v);
                    }
                }
            }
            return None;
        },
        Some(p) => p,
    };
    let (complete, p2) = match parse_int(input, p) {
        None => {
            proof {
                assert forall|v: TrackerAnnounceResponse| !(announce_in_range(v) && at_seq(input@, pos as int, announce_g1(v))) by {
                    if announce_in_range(v) && at_seq(input@, pos as int, announce_g1(v)) {
                        lemma_announce_g1_parts(input@, pos as int, v);
                    }
                }
            }
            return None;
        },
        Some(x) => x,
    };
    proof {
        lemma_subrange_split(input@, cur as int, p as int, p2 as int);
        lemma_subrange_split(input@, pos as int, cur as int, p2 as int);
    }
    cur = p2;
    let ghost c1 = req_int_field(KEY_COMPLETE@, complete);
    proof {
        assert(input@.subrange(pos as int, cur as int) =~= c1);
    }
    let (downloaded, p) = match parse_opt_int_field(input, cur, KEY_DOWNLOADED.as_slice()) {
        None => {
            proof {
                assert forall|v: TrackerAnnounceResponse| !(announce_in_range(v) && at_seq(input@, pos as int, announce_g1(v))) by {
                    if announce_in_range(v) && at_seq(input@, pos as int, announce_g1(v)) {
                        lemma_announce_g1_parts(input@, pos as int, v);
                    }
                }
            }
            return None;
        },
        Some(x) => x,
    };
    proof {
        lemma_subrange_split(input@, pos as int, cur as int, p as int);
    }
    cur = p;
    let ghost c2 = c1 + opt_int_field(KEY_DOWNLOADED@, downloaded);
    proof {
        assert(input@.subrange(pos as int, cur as int) == c2);
    }
    let (failure_reason, p) = match parse_opt_bytes_field(input, cur, KEY_FAILURE_REASON.as_slice()) {
        None => {
            proof {
                assert forall|v: TrackerAnnounceResponse| !(announce_in_range(v) && at_seq(input@, pos as int, announce_g1(v))) by {
                    if announce_in_range(v) && at_seq(input@, pos as int, announce_g1(v)) {
                        lemma_announce_g1_parts(input@, pos as int, v);
                    }
                }
            }
            return None;
        },
        Some(x) => x,
    };
    proof {
        lemma_subrange_split(input@, pos as int, cur as int, p as int);
    }
    cur = p;
    let ghost c3 = c2 + opt_bytes_field(KEY_FAILURE_REASON@, failure_reason);
    proof {
        assert(input@.subrange(pos as int, cur as int) == c3);
    }
    let p = match try_key(input, cur, KEY_INCOMPLETE.as_slice()) {
        None => {
            proof {
                assert forall|v: TrackerAnnounceResponse| !(announce_in_range(v) && at_seq(input@, pos as int, announce_g1(v))) by {
                    if announce_in_range(v) && at_seq(input@, pos as int, announce_g1(v)) {
                        lemma_announce_g1_parts(input@, pos as int, v);
                    }
                }
            }
            return None;
        },
        Some(p) => p,
    };
    let (incomplete, p2) = match parse_int(input, p) {
        None => {
            proof {
                assert forall|v: TrackerAnnounceResponse| !(announce_in_range(v) && at_seq(input@, pos as int, announce_g1(v))) by {
                    if announce_in_range(v) && at_seq(input@, pos as int, announce_g1(v)) {
                        lemma_announce_g1_parts(input@, pos as int, v);
                    }
                }
            }
            return None;
        },
        Some(x) => x,
    };
    proof {
        lemma_subrange_split(input@, cur as int, p as int, p2 as int);
        lemma_subrange_split(input@, pos as int, cur as int, p2 as int);
    }
    cur = p2;
    let ghost c4 = c3 + req_int_field(KEY_INCOMPLETE@, incomplete);
    proof {
        assert(input@.subrange(pos as int, cur as int) == c4);
        assert forall|v: TrackerAnnounceResponse| announce_in_range(v) && at_seq(input@, pos as int, announce_g1(v)) implies cur == pos
            + announce_g1(v).len() by {
            lemma_announce_g1_parts(input@, pos as int, v);
        }
    }
    Some(((complete, downloaded, failure_reason, incomplete), cur))
}


#[verifier::rlimit(100)]
#[verifier::spinoff_prover]
fn parse_announce_g2(input: &[u8], pos: usize) -> (r: Option<((i64, Option<i64>, Peers), usize)>)
    requires
        pos <= input@.len(),
    ensures
        r matches Some((t, end)) ==> pos < end <= input@.len() && input@.subrange(
            pos as int,
            end as int,
        ) == req_int_field(KEY_INTERVAL@, t.0) + opt_int_field(KEY_MIN_INTERVAL@, t.1) + (
        enc_bytes(KEY_PEERS@) + enc_peers(t.2)),
        forall|v: TrackerAnnounceResponse|
            announce_in_range(v) && at_seq(input@, pos as int, announce_g2(v)) ==> (
            r matches Some(t) && t.1 == pos + announce_g2(v).len() && ((v.peers matches
            Peers::ByteBuf(b) ==> (t.0.2 matches Peers::ByteBuf(b2) && b2@ == b@)) && (
            v.peers is PeerStruct ==> t.0.2 is PeerStruct))),
{
    let len = input.len();
    let mut cur = pos;
    let p = match try_key(input, cur, KEY_INTERVAL.as_slice()) {
        None => {
            proof {
                assert forall|v: TrackerAnnounceResponse| !(announce_in_range(v) && at_seq(input@, pos as int, announce_g2(v))) by {
                    if announce_in_range(v) && at_seq(input@, pos as int, announce_g2(v)) {
                        lemma_announce_g2_parts(input@, pos as int, v);
                    }
                }
            }
            return None;
        },
        Some(p) => p,
    };
    let (interval, p2) = match parse_int(input, p) {
        None => {
            proof {
                assert forall|v: TrackerAnnounceResponse| !(announce_in_range(v) && at_seq(input@, pos as int, announce_g2(v))) by {
                    if announce_in_range(v) && at_seq(input@, pos as int, announce_g2(v)) {
                        lemma_announce_g2_parts(input@, pos as int, v);
                    }
                }
            }
            return None;
        },
        Some(x) => x,
    };
    proof {
        lemma_subrange_split(input@, cur as int, p as int, p2 as int);
        lemma_subrange_split(input@, pos as int, cur as int, p2 as int);
    }
    cur = p2;
    let ghost c1 = req_int_field(KEY_INTERVAL@, interval);
    proof {
        assert(input@.subrange(pos as int, cur as int) =~= c1);
    }
    let (min_interval, p) = match parse_opt_int_field(input, cur, KEY_MIN_INTERVAL.as_slice()) {
        None => {
            proof {
                assert forall|v: TrackerAnnounceResponse| !(announce_in_range(v) && at_seq(input@, pos as int, announce_g2(v))) by {
                    if announce_in_range(v) && at_seq(input@, pos as int, announce_g2(v)) {
                        lemma_announce_g2_parts(input@, pos as int, v);
                    }
                }
            }
            return None;
        },
        Some(x) => x,
    };
    proof {
        lemma_subrange_split(input@, pos as int, cur as int, p as int);
    }
    cur = p;
    let ghost c2 = c1 + opt_int_field(KEY_MIN_INTERVAL@, min_interval);
    proof {
        assert(input@.subrange(pos as int, cur as int) == c2);
    }
    let p = match try_key(input, cur, KEY_PEERS.as_slice()) {
        None => {
            proof {
                assert forall|v: TrackerAnnounceResponse| !(announce_in_range(v) && at_seq(input@, pos as int, announce_g2(v))) by {
                    if announce_in_range(v) && at_seq(input@, pos as int, announce_g2(v)) {
                        lemma_announce_g2_parts(input@, pos as int, v);
                    }
                }
            }
            return None;
        },
        Some(p) => p,
    };
    let (peers, p2) = match parse_peers_value(input, p) {
        None => {
            proof {
                assert forall|v: TrackerAnnounceResponse| !(announce_in_range(v) && at_seq(input@, pos as int, announce_g2(v))) by {
                    if announce_in_range(v) && at_seq(input@, pos as int, announce_g2(v)) {
                        lemma_announce_g2_parts(input@, pos as int, v);
                    }
                }
            }
            return None;
        },
        Some(x) => x,
    };
    proof {
        lemma_subrange_split(input@, cur as int, p as int, p2 as int);
        lemma_subrange_split(input@, pos as int, cur as int, p2 as int);
    }
    cur = p2;
    let ghost c3 = c2 + (enc_bytes(KEY_PEERS@) + enc_peers(peers));
    proof {
        assert(input@.subrange(pos as int, cur as int) == c3);
        assert forall|v: TrackerAnnounceResponse| announce_in_range(v) && at_seq(input@, pos as int, announce_g2(v)) implies (cur == pos
            + announce_g2(v).len() && ((v.peers matches Peers::ByteBuf(b) ==> (
        peers matches Peers::ByteBuf(b2) && b2@ == b@)) && (v.peers is PeerStruct
            ==> peers is PeerStruct))) by {
            lemma_announce_g2_parts(input@, pos as int, v);
        }
    }
    Some(((interval, min_interval, peers), cur))
}

#[verifier::rlimit(100)]
#[verifier::spinoff_prover]
fn parse_announce_g3(input: &[u8], pos: usize) -> (r: Option<
    ((Option<Vec<u8>>, Option<Vec<u8>>), usize),
>)
    requires
        pos <= input@.len(),
    ensures
        r matches Some((t, end)) ==> pos < end <= input@.len() && input@.subrange(
            pos as int,
            end as int,
        ) == opt_bytes_field(KEY_TRACKER_ID@, t.0) + opt_bytes_field(KEY_WARNING_MESSAGE@, t.1)
            + seq![TOK_END],
        forall|v: TrackerAnnounceResponse|
            at_seq(input@, pos as int, announce_g3(v)) ==> (r matches Some(t) && t.1 == pos
                + announce_g3(v).len()),
{
    let len = input.len();
    let mut cur = pos;
    let (tracker_id, p) = match parse_opt_bytes_field(input, cur, KEY_TRACKER_ID.as_slice()) {
        None => {
            proof {
                assert forall|v: TrackerAnnounceResponse| !at_seq(
                    input@,
                    pos as int,
                    announce_g3(v),
                ) by {
                    if at_seq(input@, pos as int, announce_g3(v)) {
                        lemma_announce_g3_parts(input@, pos as int, v);
                    }
                }
            }
            return None;
        },
        Some(x) => x,
    };
    proof {
        lemma_subrange_split(input@, pos as int, cur as int, p as int);
    }
    cur = p;
    let ghost c1 = opt_bytes_field(KEY_TRACKER_ID@, tracker_id);
    proof {
        assert(input@.subrange(pos as int, cur as int) =~= c1);
    }
    let (warning_message, p) = match parse_opt_bytes_field(input, cur, KEY_WARNING_MESSAGE.as_slice()) {
        None => {
            proof {
                assert forall|v: TrackerAnnounceResponse| !at_seq(
                    input@,
                    pos as int,
                    announce_g3(v),
                ) by {
                    if at_seq(input@, pos as int, announce_g3(v)) {
                        lemma_announce_g3_parts(input@, pos as int, v);
                    }
                }
            }
            return None;
        },
        Some(x) => x,
    };
    proof {
        lemma_subrange_split(input@, pos as int, cur as int, p as int);
    }
    cur = p;
    let ghost c2 = c1 + opt_bytes_field(KEY_WARNING_MESSAGE@, warning_message);
    proof {
        assert(input@.subrange(pos as int, cur as int) == c2);
    }
    if cur == len || input[cur] != TOK_END {
        proof {
            assert forall|v: TrackerAnnounceResponse| !at_seq(
                input@,
                pos as int,
                announce_g3(v),
            ) by {
                if at_seq(input@, pos as int, announce_g3(v)) {
                    lemma_announce_g3_parts(input@, pos as int, v);
                }
            }
        }
        return None;
    }
    proof {
        lemma_subrange_split(input@, pos as int, cur as int, cur + 1);
        assert(input@.subrange(cur as int, cur + 1) =~= seq![TOK_END]);
        assert(input@.subrange(pos as int, cur + 1) == c2 + seq![TOK_END]);
        assert forall|v: TrackerAnnounceResponse| at_seq(
            input@,
            pos as int,
            announce_g3(v),
        ) implies cur + 1 == pos + announce_g3(v).len() by {
            lemma_announce_g3_parts(input@, pos as int, v);
        }
    }
    Some(((tracker_id, warning_message), cur + 1))
}


proof fn lemma_announce_groups(v: TrackerAnnounceResponse)
    ensures
        enc_announce(v) == ((seq![TOK_DICT] + announce_g1(v)) + announce_g2(v)) + announce_g3(v),
{
    assert(enc_announce(v) =~= ((seq![TOK_DICT] + announce_g1(v)) + announce_g2(v))
        + announce_g3(v));
}

proof fn lemma_announce_at_parts(s: Seq<u8>, pos: int, v: TrackerAnnounceResponse)
    requires
        at_seq(s, pos, enc_announce(v)),
        s.len() <= u64::MAX,
    ensures
        s[pos] == TOK_DICT,
        at_seq(s, pos + 1, announce_g1(v)),
        at_seq(s, pos + 1 + announce_g1(v).len(), announce_g2(v)),
        at_seq(s, pos + 1 + announce_g1(v).len() + announce_g2(v).len(), announce_g3(v)),
        enc_announce(v).len() == 1 + announce_g1(v).len() + announce_g2(v).len() + announce_g3(
            v,
        ).len(),
{
    lemma_announce_groups(v);
    lemma_at_seq_split(s, pos, (seq![TOK_DICT] + announce_g1(v)) + announce_g2(v), announce_g3(v));
    lemma_at_seq_split(s, pos, seq![TOK_DICT] + announce_g1(v), announce_g2(v));
    lemma_at_seq_split(s, pos, seq![TOK_DICT], announce_g1(v));
    assert(s.subrange(pos, pos + 1)[0] == s[pos]);
}

/// Parses a canonical announce response; every whole canonical response in
/// range is read back, and a compact peer blob is returned byte for byte.
#[verifier::rlimit(100)]
#[verifier::spinoff_prover]
pub fn parse_announce(input: &[u8], pos: usize) -> (r: Option<(TrackerAnnounceResponse, usize)>)
    requires
        pos <= input@.len(),
    ensures
        r matches Some((a, end)) ==> pos < end <= input@.len() && input@.subrange(
            pos as int,
            end as int,
        ) == enc_announce(a),
        forall|v: TrackerAnnounceResponse|
            announce_in_range(v) && at_seq(input@, pos as int, enc_announce(v)) ==> (
            r matches Some(t) && t.1 == pos + enc_announce(v).len() && ((v.peers matches
            Peers::ByteBuf(b) ==> (t.0.peers matches Peers::ByteBuf(b2) && b2@ == b@)) && (
            v.peers is PeerStruct ==> t.0.peers is PeerStruct))),
{
    let len = input.len();
    if pos == len || input[pos] != TOK_DICT {
        proof {
            assert forall|v: TrackerAnnounceResponse| !(announce_in_range(v) && at_seq(input@, pos as int, enc_announce(v))) by {
                if announce_in_range(v) && at_seq(input@, pos as int, enc_announce(v)) {
                    lemma_announce_at_parts(input@, pos as int, v);
                }
            }
        }
        return None;
    }
    let mut cur = pos + 1;
    let (t1, p) = match parse_announce_g1(input, cur) {
        None => {
            proof {
                assert forall|v: TrackerAnnounceResponse| !(announce_in_range(v) && at_seq(input@, pos as int, enc_announce(v))) by {
                    if announce_in_range(v) && at_seq(input@, pos as int, enc_announce(v)) {
                        lemma_announce_at_parts(input@, pos as int, v);
                    }
                }
            }
            return None;
        },
        Some(x) => x,
    };
    proof {
        lemma_subrange_split(input@, pos + 1, cur as int, p as int);
    }
    cur = p;
    let ghost c1 = req_int_field(KEY_COMPLETE@, t1.0) + opt_int_field(KEY_DOWNLOADED@, t1.1)
        + opt_bytes_field(KEY_FAILURE_REASON@, t1.2) + req_int_field(KEY_INCOMPLETE@, t1.3);
    proof {
        assert(input@.subrange(pos + 1, cur as int) =~= c1);
    }
    let (t2, p) = match parse_announce_g2(input, cur) {
        None => {
            proof {
                assert forall|v: TrackerAnnounceResponse| !(announce_in_range(v) && at_seq(input@, pos as int, enc_announce(v))) by {
                    if announce_in_range(v) && at_seq(input@, pos as int, enc_announce(v)) {
                        lemma_announce_at_parts(input@, pos as int, v);
                    }
                }
            }
            return None;
        },
        Some(x) => x,
    };
    proof {
        lemma_subrange_split(input@, pos + 1, cur as int, p as int);
    }
    cur = p;
    let ghost c2 = c1 + (req_int_field(KEY_INTERVAL@, t2.0) + opt_int_field(
        KEY_MIN_INTERVAL@,
        t2.1,
    ) + (enc_bytes(KEY_PEERS@) + enc_peers(t2.2)));
    proof {
        assert(input@.subrange(pos + 1, cur as int) == c2);
    }
    let (t3, p) = match parse_announce_g3(input, cur) {
        None => {
            proof {
                assert forall|v: TrackerAnnounceResponse| !(announce_in_range(v) && at_seq(input@, pos as int, enc_announce(v))) by {
                    if announce_in_range(v) && at_seq(input@, pos as int, enc_announce(v)) {
                        lemma_announce_at_parts(input@, pos as int, v);
                    }
                }
            }
            return None;
        },
        Some(x) => x,
    };
    proof {
        lemma_subrange_split(input@, pos + 1, cur as int, p as int);
    }
    cur = p;
    let ghost c3 = c2 + (opt_bytes_field(KEY_TRACKER_ID@, t3.0) + opt_bytes_field(
        KEY_WARNING_MESSAGE@,
        t3.1,
    ) + seq![TOK_END]);
    proof {
        assert(input@.subrange(pos + 1, cur as int) == c3);
    }
    let (complete, downloaded, failure_reason, incomplete) = t1;
    let (interval, min_interval, peers) = t2;
    let (tracker_id, warning_message) = t3;
    let a = TrackerAnnounceResponse {
        complete,
        downloaded,
        incomplete,
        interval,
        peers,
        min_interval,
        failure_reason,
        tracker_id,
        warning_message,
    };
    proof {
        lemma_subrange_split(input@, pos as int, pos + 1, cur as int);
        assert(input@.subrange(pos as int, pos + 1) =~= seq![TOK_DICT]);
        assert(input@.subrange(pos as int, cur as int) == seq![TOK_DICT] + c3);
        assert(c1 == announce_g1(a));
        assert(c2 == c1 + announce_g2(a));
        assert(c3 == c2 + announce_g3(a));
        crate::utils::lemma_concat_for_tracker(
            seq![TOK_DICT],
            announce_g1(a),
            announce_g2(a),
            announce_g3(a),
        );
        lemma_announce_groups(a);
        assert(seq![TOK_DICT] + c3 == enc_announce(a));
        assert forall|v: TrackerAnnounceResponse| announce_in_range(v) && at_seq(input@, pos as int, enc_announce(v)) implies (cur == pos
            + enc_announce(v).len() && ((v.peers matches Peers::ByteBuf(b) ==> (
        a.peers matches Peers::ByteBuf(b2) && b2@ == b@)) && (v.peers is PeerStruct
            ==> a.peers is PeerStruct))) by {
            lemma_announce_at_parts(input@, pos as int, v);
        }
    }
    Some((a, cur))
}


/// Every integer field of a scrape statistics entry is above the parser's
/// range floor.
pub open spec fn scrape_file_in_range(f: TrackerScrapeResponseFile) -> bool {
    &&& f.complete > i64::MIN
    &&& f.incomplete > i64::MIN
    &&& (match f.downloaded {
        Some(d) => d > i64::MIN,
        None => true,
    })
}

proof fn lemma_scrape_file_at_parts(s: Seq<u8>, pos: int, f: TrackerScrapeResponseFile)
    requires
        at_seq(s, pos, enc_scrape_file(f)),
        s.len() <= u64::MAX,
    ensures
        s[pos] == TOK_DICT,
        at_seq(s, pos + 1, enc_bytes(KEY_COMPLETE@) + enc_int(f.complete as int)),
        at_seq(s, pos + 1, enc_bytes(KEY_COMPLETE@)),
        f.complete > i64::MIN ==> int_at(s, pos + 1 + enc_bytes(KEY_COMPLETE@).len(), f.complete),
        at_seq(
            s,
            pos + 1 + req_int_field(KEY_COMPLETE@, f.complete).len(),
            opt_int_field(KEY_DOWNLOADED@, f.downloaded),
        ),
        f.downloaded is None ==> !bytes_at(
            s,
            pos + 1 + req_int_field(KEY_COMPLETE@, f.complete).len(),
            KEY_DOWNLOADED@,
        ),
        at_seq(
            s,
            pos + 1 + req_int_field(KEY_COMPLETE@, f.complete).len() + opt_int_field(
                KEY_DOWNLOADED@,
                f.downloaded,
            ).len(),
            enc_bytes(KEY_INCOMPLETE@) + enc_int(f.incomplete as int),
        ),
        at_seq(
            s,
            pos + 1 + req_int_field(KEY_COMPLETE@, f.complete).len() + opt_int_field(
                KEY_DOWNLOADED@,
                f.downloaded,
            ).len(),
            enc_bytes(KEY_INCOMPLETE@),
        ),
        f.incomplete > i64::MIN ==> int_at(
            s,
            pos + 1 + req_int_field(KEY_COMPLETE@, f.complete).len() + opt_int_field(
                KEY_DOWNLOADED@,
                f.downloaded,
            ).len() + enc_bytes(KEY_INCOMPLETE@).len(),
            f.incomplete,
        ),
        at_seq(
            s,
            pos + 1 + req_int_field(KEY_COMPLETE@, f.complete).len() + opt_int_field(
                KEY_DOWNLOADED@,
                f.downloaded,
            ).len() + req_int_field(KEY_INCOMPLETE@, f.incomplete).len(),
            opt_bytes_field(KEY_NAME@, f.name),
        ),
        f.name is None ==> !bytes_at(
            s,
            pos + 1 + req_int_field(KEY_COMPLETE@, f.complete).len() + opt_int_field(
                KEY_DOWNLOADED@,
                f.downloaded,
            ).len() + req_int_field(KEY_INCOMPLETE@, f.incomplete).len(),
            KEY_NAME@,
        ),
        pos + enc_scrape_file(f).len() - 1 < s.len() && s[pos + enc_scrape_file(f).len() - 1]
            == TOK_END,
        enc_scrape_file(f).len() == 1 + req_int_field(KEY_COMPLETE@, f.complete).len()
            + opt_int_field(KEY_DOWNLOADED@, f.downloaded).len() + req_int_field(
            KEY_INCOMPLETE@,
            f.incomplete,
        ).len() + opt_bytes_field(KEY_NAME@, f.name).len() + 1,
{
    let a = req_int_field(KEY_COMPLETE@, f.complete);
    let b = opt_int_field(KEY_DOWNLOADED@, f.downloaded);
    let c = req_int_field(KEY_INCOMPLETE@, f.incomplete);
    let d = opt_bytes_field(KEY_NAME@, f.name);
    assert(enc_scrape_file(f) =~= (seq![TOK_DICT] + a + b + c + d) + seq![TOK_END]);
    lemma_at_seq_split(s, pos, seq![TOK_DICT] + a + b + c + d, seq![TOK_END]);
    assert(seq![TOK_DICT] + a + b + c + d =~= (seq![TOK_DICT] + a + b + c) + d);
    lemma_at_seq_split(s, pos, seq![TOK_DICT] + a + b + c, d);
    assert(seq![TOK_DICT] + a + b + c =~= (seq![TOK_DICT] + a + b) + c);
    lemma_at_seq_split(s, pos, seq![TOK_DICT] + a + b, c);
    assert(seq![TOK_DICT] + a + b =~= (seq![TOK_DICT] + a) + b);
    lemma_at_seq_split(s, pos, seq![TOK_DICT] + a, b);
    lemma_at_seq_split(s, pos, seq![TOK_DICT], a);
    lemma_at_seq_split(s, pos + 1, enc_bytes(KEY_COMPLETE@), enc_int(f.complete as int));
    lemma_at_seq_split(
        s,
        pos + 1 + a.len() + b.len() as int,
        enc_bytes(KEY_INCOMPLETE@),
        enc_int(f.incomplete as int),
    );
    assert(s.subrange(pos, pos + 1)[0] == s[pos]);
    assert(s.subrange(
        pos + enc_scrape_file(f).len() - 1,
        pos + enc_scrape_file(f).len() as int,
    )[0] == s[pos + enc_scrape_file(f).len() - 1]);
    if f.downloaded is None {
        let c2 = pos + 1 + a.len() as int;
        lemma_at_seq_split(s, c2, enc_bytes(KEY_INCOMPLETE@), enc_int(f.incomplete as int));
        if bytes_at(s, c2, KEY_DOWNLOADED@) {
            assert(at_seq(s, c2, enc_bytes(KEY_DOWNLOADED@)));
            lemma_enc_bytes_unique(s, c2, KEY_DOWNLOADED@, KEY_INCOMPLETE@);
            assert(KEY_DOWNLOADED@ != KEY_INCOMPLETE@) by {
                assert(KEY_DOWNLOADED@[0] != KEY_INCOMPLETE@[0]);
            }
        }
    }
    if f.name is None {
        let c4 = pos + 1 + a.len() + b.len() + c.len() as int;
        if bytes_at(s, c4, KEY_NAME@) {
            lemma_dec_digits_shape(KEY_NAME@.len());
            assert(s.subrange(c4, c4 + enc_bytes(KEY_NAME@).len() as int)[0] == enc_bytes(
                KEY_NAME@,
            )[0]);
            assert(enc_bytes(KEY_NAME@)[0] == dec_digits(KEY_NAME@.len())[0]);
        }
    }
}

/// Parses one canonical scrape statistics entry; every whole canonical
/// entry in range is read back.
#[verifier::rlimit(100)]
#[verifier::spinoff_prover]
pub fn parse_scrape_file(input: &[u8], pos: usize) -> (r: Option<
    (TrackerScrapeResponseFile, usize),
>)
    requires
        pos <= input@.len(),
    ensures
        r matches Some((f, end)) ==> pos < end <= input@.len() && input@.subrange(
            pos as int,
            end as int,
        ) == enc_scrape_file(f),
        forall|fv: TrackerScrapeResponseFile|
            scrape_file_in_range(fv) && at_seq(input@, pos as int, enc_scrape_file(fv)) ==> (
            r matches Some(v) && v.1 == pos + enc_scrape_file(fv).len()),
{
    let len = input.len();
    if pos == len || input[pos] != TOK_DICT {
        proof {
            assert forall|fv: TrackerScrapeResponseFile| !(scrape_file_in_range(fv) && at_seq(input@, pos as int, enc_scrape_file(fv))) by {
                if scrape_file_in_range(fv) && at_seq(input@, pos as int, enc_scrape_file(fv)) {
                    lemma_scrape_file_at_parts(input@, pos as int, fv);
                }
            }
        }
        return None;
    }
    let mut cur = pos + 1;
    let ghost c0 = seq![TOK_DICT];
    proof {
        assert(input@.subrange(pos as int, cur as int) =~= c0);
    }
    let p = match try_key(input, cur, KEY_COMPLETE.as_slice()) {
        None => {
            proof {
                assert forall|fv: TrackerScrapeResponseFile| !(scrape_file_in_range(fv) && at_seq(input@, pos as int, enc_scrape_file(fv))) by {
                    if scrape_file_in_range(fv) && at_seq(input@, pos as int, enc_scrape_file(fv)) {
                        lemma_scrape_file_at_parts(input@, pos as int, fv);
                    }
                }
            }
            return None;
        },
        Some(p) => p,
    };
    let (complete, p2) = match parse_int(input, p) {
        None => {
            proof {
                assert forall|fv: TrackerScrapeResponseFile| !(scrape_file_in_range(fv) && at_seq(input@, pos as int, enc_scrape_file(fv))) by {
                    if scrape_file_in_range(fv) && at_seq(input@, pos as int, enc_scrape_file(fv)) {
                        lemma_scrape_file_at_parts(input@, pos as int, fv);
                    }
                }
            }
            return None;
        },
        Some(x) => x,
    };
    proof {
        lemma_subrange_split(input@, cur as int, p as int, p2 as int);
        lemma_subrange_split(input@, pos as int, cur as int, p2 as int);
    }
    cur = p2;
    let ghost c1 = c0 + req_int_field(KEY_COMPLETE@, complete);
    proof {
        assert(input@.subrange(pos as int, cur as int) == c1);
    }
    let (downloaded, p) = match parse_opt_int_field(input, cur, KEY_DOWNLOADED.as_slice()) {
        None => {
            proof {
                assert forall|fv: TrackerScrapeResponseFile| !(scrape_file_in_range(fv) && at_seq(input@, pos as int, enc_scrape_file(fv))) by {
                    if scrape_file_in_range(fv) && at_seq(input@, pos as int, enc_scrape_file(fv)) {
                        lemma_scrape_file_at_parts(input@, pos as int, fv);
                    }
                }
            }
            return None;
        },
        Some(x) => x,
    };
    proof {
        lemma_subrange_split(input@, pos as int, cur as int, p as int);
    }
    cur = p;
    let ghost c2 = c1 + opt_int_field(KEY_DOWNLOADED@, downloaded);
    proof {
        assert(input@.subrange(pos as int, cur as int) == c2);
    }
    let p = match try_key(input, cur, KEY_INCOMPLETE.as_slice()) {
        None => {
            proof {
                assert forall|fv: TrackerScrapeResponseFile| !(scrape_file_in_range(fv) && at_seq(input@, pos as int, enc_scrape_file(fv))) by {
                    if scrape_file_in_range(fv) && at_seq(input@, pos as int, enc_scrape_file(fv)) {
                        lemma_scrape_file_at_parts(input@, pos as int, fv);
                    }
                }
            }
            return None;
        },
        Some(p) => p,
    };
    let (incomplete, p2) = match parse_int(input, p) {
        None => {
            proof {
                assert forall|fv: TrackerScrapeResponseFile| !(scrape_file_in_range(fv) && at_seq(input@, pos as int, enc_scrape_file(fv))) by {
                    if scrape_file_in_range(fv) && at_seq(input@, pos as int, enc_scrape_file(fv)) {
                        lemma_scrape_file_at_parts(input@, pos as int, fv);
                    }
                }
            }
            return None;
        },
        Some(x) => x,
    };
    proof {
        lemma_subrange_split(input@, cur as int, p as int, p2 as int);
        lemma_subrange_split(input@, pos as int, cur as int, p2 as int);
    }
    cur = p2;
    let ghost c3 = c2 + req_int_field(KEY_INCOMPLETE@, incomplete);
    proof {
        assert(input@.subrange(pos as int, cur as int) == c3);
    }
    let (name, p) = match parse_opt_bytes_field(input, cur, KEY_NAME.as_slice()) {
        None => {
            proof {
                assert forall|fv: TrackerScrapeResponseFile| !(scrape_file_in_range(fv) && at_seq(input@, pos as int, enc_scrape_file(fv))) by {
                    if scrape_file_in_range(fv) && at_seq(input@, pos as int, enc_scrape_file(fv)) {
                        lemma_scrape_file_at_parts(input@, pos as int, fv);
                    }
                }
            }
            return None;
        },
        Some(x) => x,
    };
    proof {
        lemma_subrange_split(input@, pos as int, cur as int, p as int);
    }
    cur = p;
    let ghost c4 = c3 + opt_bytes_field(KEY_NAME@, name);
    proof {
        assert(input@.subrange(pos as int, cur as int) == c4);
    }
    if cur == len || input[cur] != TOK_END {
        proof {
            assert forall|fv: TrackerScrapeResponseFile| !(scrape_file_in_range(fv) && at_seq(input@, pos as int, enc_scrape_file(fv))) by {
                if scrape_file_in_range(fv) && at_seq(input@, pos as int, enc_scrape_file(fv)) {
                    lemma_scrape_file_at_parts(input@, pos as int, fv);
                }
            }
        }
        return None;
    }
    let f = TrackerScrapeResponseFile { complete, downloaded, incomplete, name };
    proof {
        lemma_subrange_split(input@, pos as int, cur as int, cur + 1);
        assert(input@.subrange(cur as int, cur + 1) =~= seq![TOK_END]);
        assert(input@.subrange(pos as int, cur + 1) == c4 + seq![TOK_END]);
        assert(c4 + seq![TOK_END] == enc_scrape_file(f));
        assert forall|fv: TrackerScrapeResponseFile|
            scrape_file_in_range(fv) && at_seq(
                input@,
                pos as int,
                enc_scrape_file(fv),
            ) implies cur + 1 == pos + enc_scrape_file(fv).len() by {
            lemma_scrape_file_at_parts(input@, pos as int, fv);
        }
    }
    Some((f, cur + 1))
}


/// Every statistics entry of a scrape response is above the parser's range
/// floor.
pub open spec fn scrape_files_in_range(l: Seq<(Vec<u8>, TrackerScrapeResponseFile)>) -> bool {
    forall|k: int| 0 <= k < l.len() ==> scrape_file_in_range((#[trigger] l[k]).1)
}

proof fn lemma_scrape_items_prefix(l: Seq<(Vec<u8>, TrackerScrapeResponseFile)>, m: int)
    requires
        0 <= m <= l.len(),
    ensures
        enc_scrape_items(l.take(m)).len() <= enc_scrape_items(l).len(),
        enc_scrape_items(l).subrange(0, enc_scrape_items(l.take(m)).len() as int)
            == enc_scrape_items(l.take(m)),
        m < l.len() ==> enc_scrape_items(l.take(m)).len() + (enc_bytes(l[m].0@)
            + enc_scrape_file(l[m].1)).len() <= enc_scrape_items(l).len() && enc_scrape_items(
            l,
        ).subrange(
            enc_scrape_items(l.take(m)).len() as int,
            enc_scrape_items(l.take(m)).len() + (enc_bytes(l[m].0@) + enc_scrape_file(
                l[m].1,
            )).len() as int,
        ) == enc_bytes(l[m].0@) + enc_scrape_file(l[m].1),
    decreases l.len() - m,
{
    if m == l.len() {
        assert(l.take(m) =~= l);
    } else {
        assert(l.take(m + 1).drop_last() =~= l.take(m));
        assert(l.take(m + 1).last() == l[m]);
        assert(enc_scrape_items(l.take(m + 1)) == enc_scrape_items(l.take(m)) + (enc_bytes(
            l[m].0@,
        ) + enc_scrape_file(l[m].1)));
        lemma_scrape_items_prefix(l, m + 1);
        let lm = enc_scrape_items(l.take(m)).len() as int;
        let li = (enc_bytes(l[m].0@) + enc_scrape_file(l[m].1)).len() as int;
        assert forall|k: int| 0 <= k < lm implies #[trigger] enc_scrape_items(l).subrange(
            0,
            lm,
        )[k] == enc_scrape_items(l.take(m))[k] by {
            assert(enc_scrape_items(l).subrange(0, lm + li)[k] == enc_scrape_items(
                l.take(m + 1),
            )[k]);
            assert(enc_scrape_items(l).subrange(0, lm + li)[k] == enc_scrape_items(l)[k]);
            assert(enc_scrape_items(l).subrange(0, lm)[k] == enc_scrape_items(l)[k]);
            assert(enc_scrape_items(l.take(m + 1))[k] == enc_scrape_items(l.take(m))[k]);
        }
        assert(enc_scrape_items(l).subrange(0, lm) =~= enc_scrape_items(l.take(m)));
        assert forall|k: int| 0 <= k < li implies #[trigger] enc_scrape_items(l).subrange(
            lm,
            lm + li,
        )[k] == (enc_bytes(l[m].0@) + enc_scrape_file(l[m].1))[k] by {
            assert(enc_scrape_items(l).subrange(0, lm + li)[lm + k] == enc_scrape_items(
                l.take(m + 1),
            )[lm + k]);
            assert(enc_scrape_items(l).subrange(0, lm + li)[lm + k] == enc_scrape_items(
                l,
            )[lm + k]);
            assert(enc_scrape_items(l).subrange(lm, lm + li)[k] == enc_scrape_items(l)[lm + k]);
            assert(enc_scrape_items(l.take(m + 1))[lm + k] == (enc_bytes(l[m].0@)
                + enc_scrape_file(l[m].1))[k]);
        }
        assert(enc_scrape_items(l).subrange(lm, lm + li) =~= enc_bytes(l[m].0@) + enc_scrape_file(
            l[m].1,
        ));
    }
}

/// Parses the canonical dictionary of per-content statistics; every whole
/// canonical dictionary in range is read back.
#[verifier::rlimit(100)]
#[verifier::spinoff_prover]
pub fn parse_scrape_files(input: &[u8], pos: usize) -> (r: Option<
    (Vec<(Vec<u8>, TrackerScrapeResponseFile)>, usize),
>)
    requires
        pos <= input@.len(),
    ensures
        r matches Some((l, end)) ==> pos < end <= input@.len() && input@.subrange(
            pos as int,
            end as int,
        ) == seq![TOK_DICT] + enc_scrape_items(l@) + seq![TOK_END],
        forall|l: Seq<(Vec<u8>, TrackerScrapeResponseFile)>|
            scrape_files_in_range(l) && at_seq(
                input@,
                pos as int,
                seq![TOK_DICT] + enc_scrape_items(l) + seq![TOK_END],
            ) ==> (r matches Some(v) && v.1 == pos + (seq![TOK_DICT] + enc_scrape_items(l)
                + seq![TOK_END]).len()),
{
    let len = input.len();
    if pos == len || input[pos] != TOK_DICT {
        proof {
            assert forall|l: Seq<(Vec<u8>, TrackerScrapeResponseFile)>| !(scrape_files_in_range(l)
                && at_seq(
                input@,
                pos as int,
                seq![TOK_DICT] + enc_scrape_items(l) + seq![TOK_END],
            )) by {
                if at_seq(input@, pos as int, seq![TOK_DICT] + enc_scrape_items(l) + seq![TOK_END]) {
                    assert(input@.subrange(
                        pos as int,
                        pos + (seq![TOK_DICT] + enc_scrape_items(l) + seq![TOK_END]).len() as int,
                    )[0] == (seq![TOK_DICT] + enc_scrape_items(l) + seq![TOK_END])[0]);
                }
            }
        }
        return None;
    }
    let mut items: Vec<(Vec<u8>, TrackerScrapeResponseFile)> = Vec::new();
    let mut cur = pos + 1;
    proof {
        assert(input@.subrange(pos + 1, cur as int) =~= enc_scrape_items(items@));
        assert(enc_scrape_items(Seq::<(Vec<u8>, TrackerScrapeResponseFile)>::empty())
            =~= Seq::<u8>::empty());
    }
    loop
        invariant
            pos + 1 <= cur <= len,
            len == input@.len(),
            input@[pos as int] == TOK_DICT,
            input@.subrange(pos + 1, cur as int) == enc_scrape_items(items@),
            forall|l: Seq<(Vec<u8>, TrackerScrapeResponseFile)>|
                scrape_files_in_range(l) && at_seq(
                    input@,
                    pos as int,
                    seq![TOK_DICT] + enc_scrape_items(l) + seq![TOK_END],
                ) ==> (items@.len() <= l.len() && cur == pos + 1 + enc_scrape_items(
                    l.take(items@.len() as int),
                ).len()),
        decreases len - cur,
    {
        let ghost j = items@.len() as int;
        proof {
            assert forall|l: Seq<(Vec<u8>, TrackerScrapeResponseFile)>|
                scrape_files_in_range(l) && at_seq(
                    input@,
                    pos as int,
                    seq![TOK_DICT] + enc_scrape_items(l) + seq![TOK_END],
                ) && j < l.len() implies (bytes_at(input@, cur as int, l[j].0@)
                && scrape_file_in_range(l[j].1) && at_seq(
                input@,
                cur + enc_bytes(l[j].0@).len(),
                enc_scrape_file(l[j].1),
            ) && cur < len && is_digit(input@[cur as int])) by {
                lemma_at_seq_split(
                    input@,
                    pos as int,
                    seq![TOK_DICT] + enc_scrape_items(l),
                    seq![TOK_END],
                );
                lemma_at_seq_split(input@, pos as int, seq![TOK_DICT], enc_scrape_items(l));
                lemma_scrape_items_prefix(l, j);
                crate::bencode::lemma_at_seq_within(
                    input@,
                    pos + 1,
                    enc_scrape_items(l),
                    enc_scrape_items(l.take(j)).len() as int,
                    enc_bytes(l[j].0@) + enc_scrape_file(l[j].1),
                );
                lemma_at_seq_split(
                    input@,
                    cur as int,
                    enc_bytes(l[j].0@),
                    enc_scrape_file(l[j].1),
                );
                lemma_dec_digits_shape(l[j].0@.len());
                assert(input@.subrange(cur as int, cur + enc_bytes(l[j].0@).len() as int)[0]
                    == enc_bytes(l[j].0@)[0]);
                assert(enc_bytes(l[j].0@)[0] == dec_digits(l[j].0@.len())[0]);
            }
            assert forall|l: Seq<(Vec<u8>, TrackerScrapeResponseFile)>|
                scrape_files_in_range(l) && at_seq(
                    input@,
                    pos as int,
                    seq![TOK_DICT] + enc_scrape_items(l) + seq![TOK_END],
                ) && j == l.len() implies (cur < len && input@[cur as int] == TOK_END && cur + 1
                == pos + (seq![TOK_DICT] + enc_scrape_items(l) + seq![TOK_END]).len()) by {
                assert(l.take(j) =~= l);
                assert(input@.subrange(
                    pos as int,
                    pos + (seq![TOK_DICT] + enc_scrape_items(l) + seq![TOK_END]).len() as int,
                )[cur - pos] == (seq![TOK_DICT] + enc_scrape_items(l) + seq![TOK_END])[cur - pos]);
                assert((seq![TOK_DICT] + enc_scrape_items(l) + seq![TOK_END])[cur - pos]
                    == TOK_END);
            }
        }
        if cur == len {
            return None;
        }
        if input[cur] == TOK_END {
            proof {
                lemma_subrange_split(input@, pos as int, pos + 1, cur + 1);
                lemma_subrange_split(input@, pos + 1, cur as int, cur + 1);
                assert(input@.subrange(pos as int, pos + 1) =~= seq![TOK_DICT]);
                assert(input@.subrange(cur as int, cur + 1) =~= seq![TOK_END]);
                assert(input@.subrange(pos as int, cur + 1) =~= seq![TOK_DICT] + enc_scrape_items(
                    items@,
                ) + seq![TOK_END]);
                assert forall|l: Seq<(Vec<u8>, TrackerScrapeResponseFile)>|
                    scrape_files_in_range(l) && at_seq(
                        input@,
                        pos as int,
                        seq![TOK_DICT] + enc_scrape_items(l) + seq![TOK_END],
                    ) implies cur + 1 == pos + (seq![TOK_DICT] + enc_scrape_items(l)
                    + seq![TOK_END]).len() by {
                    if j < l.len() {
                        assert(is_digit(input@[cur as int]));
                        assert(false);
                    }
                }
            }
            return Some((items, cur + 1));
        }
        let (key, p) = match parse_bytes(input, cur) {
            None => {
                proof {
                    assert forall|l: Seq<(Vec<u8>, TrackerScrapeResponseFile)>| !(
                    scrape_files_in_range(l) && at_seq(
                        input@,
                        pos as int,
                        seq![TOK_DICT] + enc_scrape_items(l) + seq![TOK_END],
                    )) by {
                        if scrape_files_in_range(l) && at_seq(
                            input@,
                            pos as int,
                            seq![TOK_DICT] + enc_scrape_items(l) + seq![TOK_END],
                        ) {
                            if j == l.len() {
                                assert(input@[cur as int] == TOK_END);
                            }
                            assert(false);
                        }
                    }
                }
                return None;
            },
            Some(x) => x,
        };
        let (f, p2) = match parse_scrape_file(input, p) {
            None => {
                proof {
                    assert forall|l: Seq<(Vec<u8>, TrackerScrapeResponseFile)>| !(
                    scrape_files_in_range(l) && at_seq(
                        input@,
                        pos as int,
                        seq![TOK_DICT] + enc_scrape_items(l) + seq![TOK_END],
                    )) by {
                        if scrape_files_in_range(l) && at_seq(
                            input@,
                            pos as int,
                            seq![TOK_DICT] + enc_scrape_items(l) + seq![TOK_END],
                        ) {
                            if j == l.len() {
                                assert(input@[cur as int] == TOK_END);
                            }
                            assert(false);
                        }
                    }
                }
                return None;
            },
            Some(x) => x,
        };
        let entry = (key, f);
        proof {
            lemma_subrange_split(input@, cur as int, p as int, p2 as int);
            lemma_subrange_split(input@, pos + 1, cur as int, p2 as int);
            assert(items@.push(entry).drop_last() =~= items@);
            assert(items@.push(entry).last() == entry);
            assert forall|l: Seq<(Vec<u8>, TrackerScrapeResponseFile)>|
                scrape_files_in_range(l) && at_seq(
                    input@,
                    pos as int,
                    seq![TOK_DICT] + enc_scrape_items(l) + seq![TOK_END],
                ) implies (items@.push(entry).len() <= l.len() && p2 == pos + 1 + enc_scrape_items(
                l.take(items@.push(entry).len() as int),
            ).len()) by {
                if j == l.len() {
                    assert(input@[cur as int] == TOK_END);
                    assert(false);
                }
                assert(l.take(j + 1).drop_last() =~= l.take(j));
                assert(l.take(j + 1).last() == l[j]);
                assert(enc_scrape_items(l.take(j + 1)) == enc_scrape_items(l.take(j)) + (enc_bytes(
                    l[j].0@,
                ) + enc_scrape_file(l[j].1)));
            }
        }
        items.push(entry);
        cur = p2;
    }
}


/// Every statistics entry of a scrape response is above the parser's range
/// floor.
pub open spec fn scrape_in_range(v: TrackerScrapeResponse) -> bool {
    scrape_files_in_range(v.files@)
}

proof fn lemma_scrape_at_parts_a(s: Seq<u8>, pos: int, v: TrackerScrapeResponse)
    requires
        at_seq(s, pos, enc_scrape(v)),
        s.len() <= u64::MAX,
    ensures
        s[pos] == TOK_DICT,
        at_seq(s, pos + 1, opt_bytes_field(KEY_FAILURE_REASON@, v.failure_reason)),
        v.failure_reason is None ==> !bytes_at(s, pos + 1, KEY_FAILURE_REASON@),
        at_seq(
            s,
            pos + 1 + opt_bytes_field(KEY_FAILURE_REASON@, v.failure_reason).len(),
            enc_bytes(KEY_FILES@),
        ),
        at_seq(
            s,
            pos + 1 + opt_bytes_field(KEY_FAILURE_REASON@, v.failure_reason).len() + enc_bytes(
                KEY_FILES@,
            ).len(),
            seq![TOK_DICT] + enc_scrape_items(v.files@) + seq![TOK_END],
        ),
{
    let a = opt_bytes_field(KEY_FAILURE_REASON@, v.failure_reason);
    let b = enc_bytes(KEY_FILES@) + seq![TOK_DICT] + enc_scrape_items(v.files@) + seq![TOK_END];
    let c = opt_bytes_field(KEY_WARNING_MESSAGE@, v.warning_message);
    assert(enc_scrape(v) =~= (seq![TOK_DICT] + a + b + c) + seq![TOK_END]);
    lemma_at_seq_split(s, pos, seq![TOK_DICT] + a + b + c, seq![TOK_END]);
    assert(seq![TOK_DICT] + a + b + c =~= (seq![TOK_DICT] + a + b) + c);
    lemma_at_seq_split(s, pos, seq![TOK_DICT] + a + b, c);
    assert(seq![TOK_DICT] + a + b =~= (seq![TOK_DICT] + a) + b);
    lemma_at_seq_split(s, pos, seq![TOK_DICT] + a, b);
    lemma_at_seq_split(s, pos, seq![TOK_DICT], a);
    assert(b =~= enc_bytes(KEY_FILES@) + (seq![TOK_DICT] + enc_scrape_items(v.files@)
        + seq![TOK_END]));
    lemma_at_seq_split(
        s,
        pos + 1 + a.len() as int,
        enc_bytes(KEY_FILES@),
        seq![TOK_DICT] + enc_scrape_items(v.files@) + seq![TOK_END],
    );
    assert(s.subrange(pos, pos + 1)[0] == s[pos]);
    if v.failure_reason is None {
        if bytes_at(s, pos + 1, KEY_FAILURE_REASON@) {
            assert(at_seq(s, pos + 1, enc_bytes(KEY_FAILURE_REASON@)));
            lemma_enc_bytes_unique(s, pos + 1, KEY_FAILURE_REASON@, KEY_FILES@);
            assert(KEY_FAILURE_REASON@ != KEY_FILES@) by {
                assert(KEY_FAILURE_REASON@.len() != KEY_FILES@.len());
            }
        }
    }
}

proof fn lemma_scrape_at_parts_b(s: Seq<u8>, pos: int, v: TrackerScrapeResponse)
    requires
        at_seq(s, pos, enc_scrape(v)),
        s.len() <= u64::MAX,
    ensures
        at_seq(
            s,
            pos + 1 + opt_bytes_field(KEY_FAILURE_REASON@, v.failure_reason).len() + (enc_bytes(
                KEY_FILES@,
            ) + seq![TOK_DICT] + enc_scrape_items(v.files@) + seq![TOK_END]).len(),
            opt_bytes_field(KEY_WARNING_MESSAGE@, v.warning_message),
        ),
        v.warning_message is None ==> !bytes_at(
            s,
            pos + 1 + opt_bytes_field(KEY_FAILURE_REASON@, v.failure_reason).len() + (enc_bytes(
                KEY_FILES@,
            ) + seq![TOK_DICT] + enc_scrape_items(v.files@) + seq![TOK_END]).len(),
            KEY_WARNING_MESSAGE@,
        ),
        pos + enc_scrape(v).len() - 1 < s.len() && s[pos + enc_scrape(v).len() - 1] == TOK_END,
        enc_scrape(v).len() == 1 + opt_bytes_field(KEY_FAILURE_REASON@, v.failure_reason).len()
            + (enc_bytes(KEY_FILES@) + seq![TOK_DICT] + enc_scrape_items(v.files@)
            + seq![TOK_END]).len() + opt_bytes_field(KEY_WARNING_MESSAGE@, v.warning_message).len()
            + 1,
{
    let a = opt_bytes_field(KEY_FAILURE_REASON@, v.failure_reason);
    let b = enc_bytes(KEY_FILES@) + seq![TOK_DICT] + enc_scrape_items(v.files@) + seq![TOK_END];
    let c = opt_bytes_field(KEY_WARNING_MESSAGE@, v.warning_message);
    assert(enc_scrape(v) =~= (seq![TOK_DICT] + a + b + c) + seq![TOK_END]);
    lemma_at_seq_split(s, pos, seq![TOK_DICT] + a + b + c, seq![TOK_END]);
    assert(seq![TOK_DICT] + a + b + c =~= (seq![TOK_DICT] + a + b) + c);
    lemma_at_seq_split(s, pos, seq![TOK_DICT] + a + b, c);
    assert(s.subrange(
        pos + enc_scrape(v).len() - 1,
        pos + enc_scrape(v).len() as int,
    )[0] == s[pos + enc_scrape(v).len() - 1]);
    if v.warning_message is None {
        let c3 = pos + 1 + a.len() + b.len() as int;
        if bytes_at(s, c3, KEY_WARNING_MESSAGE@) {
            lemma_dec_digits_shape(KEY_WARNING_MESSAGE@.len());
            assert(s.subrange(c3, c3 + enc_bytes(KEY_WARNING_MESSAGE@).len() as int)[0]
                == enc_bytes(KEY_WARNING_MESSAGE@)[0]);
            assert(enc_bytes(KEY_WARNING_MESSAGE@)[0] == dec_digits(KEY_WARNING_MESSAGE@.len())[0]);
        }
    }
}

/// Parses a canonical scrape response; every whole canonical response in
/// range is read back.
#[verifier::rlimit(100)]
#[verifier::spinoff_prover]
pub fn parse_scrape(input: &[u8], pos: usize) -> (r: Option<(TrackerScrapeResponse, usize)>)
    requires
        pos <= input@.len(),
    ensures
        r matches Some((v, end)) ==> pos < end <= input@.len() && input@.subrange(
            pos as int,
            end as int,
        ) == enc_scrape(v),
        forall|sv: TrackerScrapeResponse|
            scrape_in_range(sv) && at_seq(input@, pos as int, enc_scrape(sv)) ==> (r matches Some(
                v,
            ) && v.1 == pos + enc_scrape(sv).len()),
{
    let len = input.len();
    if pos == len || input[pos] != TOK_DICT {
        proof {
            assert forall|sv: TrackerScrapeResponse| !(scrape_in_range(sv) && at_seq(input@, pos as int, enc_scrape(sv))) by {
                if scrape_in_range(sv) && at_seq(input@, pos as int, enc_scrape(sv)) {
                    lemma_scrape_at_parts_a(input@, pos as int, sv);
                }
            }
        }
        return None;
    }
    let mut cur = pos + 1;
    let ghost c0 = seq![TOK_DICT];
    proof {
        assert(input@.subrange(pos as int, cur as int) =~= c0);
    }
    let (failure_reason, p) = match parse_opt_bytes_field(input, cur, KEY_FAILURE_REASON.as_slice()) {
        None => {
            proof {
                assert forall|sv: TrackerScrapeResponse| !(scrape_in_range(sv) && at_seq(input@, pos as int, enc_scrape(sv))) by {
                    if scrape_in_range(sv) && at_seq(input@, pos as int, enc_scrape(sv)) {
                        lemma_scrape_at_parts_a(input@, pos as int, sv);
                    }
                }
            }
            return None;
        },
        Some(x) => x,
    };
    proof {
        lemma_subrange_split(input@, pos as int, cur as int, p as int);
    }
    cur = p;
    let ghost c1 = c0 + opt_bytes_field(KEY_FAILURE_REASON@, failure_reason);
    proof {
        assert(input@.subrange(pos as int, cur as int) == c1);
    }
    let p = match try_key(input, cur, KEY_FILES.as_slice()) {
        None => {
            proof {
                assert forall|sv: TrackerScrapeResponse| !(scrape_in_range(sv) && at_seq(input@, pos as int, enc_scrape(sv))) by {
                    if scrape_in_range(sv) && at_seq(input@, pos as int, enc_scrape(sv)) {
                        lemma_scrape_at_parts_a(input@, pos as int, sv);
                    }
                }
            }
            return None;
        },
        Some(p) => p,
    };
    let (files, p2) = match parse_scrape_files(input, p) {
        None => {
            proof {
                assert forall|sv: TrackerScrapeResponse| !(scrape_in_range(sv) && at_seq(input@, pos as int, enc_scrape(sv))) by {
                    if scrape_in_range(sv) && at_seq(input@, pos as int, enc_scrape(sv)) {
                        lemma_scrape_at_parts_a(input@, pos as int, sv);
                        lemma_scrape_at_parts_b(input@, pos as int, sv);
                    }
                }
            }
            return None;
        },
        Some(x) => x,
    };
    proof {
        lemma_subrange_split(input@, cur as int, p as int, p2 as int);
        lemma_subrange_split(input@, pos as int, cur as int, p2 as int);
    }
    cur = p2;
    let ghost c2 = c1 + (enc_bytes(KEY_FILES@) + seq![TOK_DICT] + enc_scrape_items(files@)
        + seq![TOK_END]);
    proof {
        assert(input@.subrange(pos as int, cur as int) == c2);
    }
    let (warning_message, p) = match parse_opt_bytes_field(input, cur, KEY_WARNING_MESSAGE.as_slice()) {
        None => {
            proof {
                assert forall|sv: TrackerScrapeResponse| !(scrape_in_range(sv) && at_seq(input@, pos as int, enc_scrape(sv))) by {
                    if scrape_in_range(sv) && at_seq(input@, pos as int, enc_scrape(sv)) {
                        lemma_scrape_at_parts_a(input@, pos as int, sv);
                        lemma_scrape_at_parts_b(input@, pos as int, sv);
                    }
                }
            }
            return None;
        },
        Some(x) => x,
    };
    proof {
        lemma_subrange_split(input@, pos as int, cur as int, p as int);
    }
    cur = p;
    let ghost c3 = c2 + opt_bytes_field(KEY_WARNING_MESSAGE@, warning_message);
    proof {
        assert(input@.subrange(pos as int, cur as int) == c3);
    }
    if cur == len || input[cur] != TOK_END {
        proof {
            assert forall|sv: TrackerScrapeResponse| !(scrape_in_range(sv) && at_seq(input@, pos as int, enc_scrape(sv))) by {
                if scrape_in_range(sv) && at_seq(input@, pos as int, enc_scrape(sv)) {
                    lemma_scrape_at_parts_a(input@, pos as int, sv);
                        lemma_scrape_at_parts_b(input@, pos as int, sv);
                }
            }
        }
        return None;
    }
    let v = TrackerScrapeResponse { files, failure_reason, warning_message };
    proof {
        lemma_subrange_split(input@, pos as int, cur as int, cur + 1);
        assert(input@.subrange(cur as int, cur + 1) =~= seq![TOK_END]);
        assert(input@.subrange(pos as int, cur + 1) == c3 + seq![TOK_END]);
        assert(c3 + seq![TOK_END] == enc_scrape(v));
        assert forall|sv: TrackerScrapeResponse|
            scrape_in_range(sv) && at_seq(input@, pos as int, enc_scrape(sv)) implies cur + 1
            == pos + enc_scrape(sv).len() by {
            lemma_scrape_at_parts_a(input@, pos as int, sv);
            lemma_scrape_at_parts_b(input@, pos as int, sv);
        }
    }
    Some((v, cur + 1))
}

/// Normalizes a decoded announce response so that both peer-list forms
/// present the same representation: a compact blob is decoded into one
/// `TrackerPeer` per chunk; a dictionary list is kept as it is.
pub fn normalize_peers(resp: TrackerAnnounceResponse) -> (r: Result<
    TrackerAnnounceResponse,
    TrackerError,
>)
    ensures
        resp.peers matches Peers::ByteBuf(b) ==> {
            &&& (r is Ok <==> b@.len() % 6 == 0)
            &&& (r matches Ok(out) ==> {
                &&& out.peers matches Peers::PeerStruct(ps) && compact_decoded(b@, ps@)
                &&& out == (TrackerAnnounceResponse { peers: out.peers, ..resp })
            })
        },
        resp.peers is PeerStruct ==> r == Result::<TrackerAnnounceResponse, TrackerError>::Ok(
            resp,
        ),
        r is Err ==> r == Result::<TrackerAnnounceResponse, TrackerError>::Err(
            TrackerError::Undecodable,
        ),
{
    let TrackerAnnounceResponse {
        complete,
        downloaded,
        incomplete,
        interval,
        peers,
        min_interval,
        failure_reason,
        tracker_id,
        warning_message,
    } = resp;
    let peers = match peers {
        Peers::ByteBuf(b) => {
            match decode_compact_peers(b.as_slice()) {
                Err(e) => {
                    return Err(e);
                },
                Ok(ps) => Peers::PeerStruct(ps),
            }
        },
        Peers::PeerStruct(ps) => Peers::PeerStruct(ps),
    };
    Ok(
        TrackerAnnounceResponse {
            complete,
            downloaded,
            incomplete,
            interval,
            peers,
            min_interval,
            failure_reason,
            tracker_id,
            warning_message,
        },
    )
}

impl Announce {
    /// Decodes an announce response body and normalizes its peer list.
    /// Canonical bodies are decoded exactly; other bodies are accepted
    /// tolerantly, with keys in any order and unknown keys passed over. A
    /// body that still does not decode, or whose compact peer list is
    /// ragged, is undecodable: a per-endpoint failure, never a panic.
    pub fn parse_buffer(response: &Vec<u8>) -> (r: Result<TrackerAnnounceResponse, TrackerError>)
        ensures
            r matches Ok(out) ==> out.peers is PeerStruct,
            r is Err ==> r == Result::<TrackerAnnounceResponse, TrackerError>::Err(
                TrackerError::Undecodable,
            ),
            forall|raw: TrackerAnnounceResponse|
                announce_in_range(raw) && response@ == enc_announce(raw) && (raw.peers matches
                Peers::ByteBuf(b) ==> b@.len() % 6 == 0) ==> (r matches Ok(out) && ((
                raw.peers matches Peers::ByteBuf(b) ==> (out.peers matches Peers::PeerStruct(ps)
                    && compact_decoded(b@, ps@))) && (raw.peers is PeerStruct
                    ==> out.peers is PeerStruct))),
            forall|raw: TrackerAnnounceResponse|
                announce_in_range(raw) && response@ == enc_announce(raw) && (raw.peers matches
                Peers::ByteBuf(b) && b@.len() % 6 != 0) ==> r is Err,
    {
        proof {
            assert forall|raw: TrackerAnnounceResponse|
                announce_in_range(raw) && response@ == enc_announce(raw) implies at_seq(
                response@,
                0,
                enc_announce(raw),
            ) by {
                assert(response@.subrange(0, enc_announce(raw).len() as int) =~= enc_announce(
                    raw,
                ));
            }
        }
        match parse_announce(response.as_slice(), 0) {
            Some((raw, end)) => {
                if end == response.len() {
                    return normalize_peers(raw);
                }
                match parse_announce_lenient(response.as_slice(), 0) {
                    Some((raw2, end2)) => {
                        if end2 == response.len() {
                            normalize_peers(raw2)
                        } else {
                            Err(TrackerError::Undecodable)
                        }
                    },
                    None => Err(TrackerError::Undecodable),
                }
            },
            None => {
                match parse_announce_lenient(response.as_slice(), 0) {
                    Some((raw2, end2)) => {
                        if end2 == response.len() {
                            normalize_peers(raw2)
                        } else {
                            Err(TrackerError::Undecodable)
                        }
                    },
                    None => Err(TrackerError::Undecodable),
                }
            },
        }
    }
}

impl Scrape {
    /// Decodes a scrape response body. Canonical bodies are decoded
    /// exactly; other bodies are accepted tolerantly, with keys in any
    /// order and unknown keys passed over. A body that still does not
    /// decode is undecodable: a per-endpoint failure, never a panic.
    pub fn parse_buffer(response: &Vec<u8>) -> (r: Result<TrackerScrapeResponse, TrackerError>)
        ensures
            r is Err ==> r == Result::<TrackerScrapeResponse, TrackerError>::Err(
                TrackerError::Undecodable,
            ),
            forall|sv: TrackerScrapeResponse|
                scrape_in_range(sv) && response@ == enc_scrape(sv) ==> r is Ok,
    {
        proof {
            assert forall|sv: TrackerScrapeResponse|
                scrape_in_range(sv) && response@ == enc_scrape(sv) implies at_seq(
                response@,
                0,
                enc_scrape(sv),
            ) by {
                assert(response@.subrange(0, enc_scrape(sv).len() as int) =~= enc_scrape(sv));
            }
        }
        match parse_scrape(response.as_slice(), 0) {
            Some((v, end)) => {
                if end == response.len() {
                    return Ok(v);
                }
                match parse_scrape_lenient(response.as_slice(), 0) {
                    Some((v2, end2)) => {
                        if end2 == response.len() {
                            Ok(v2)
                        } else {
                            Err(TrackerError::Undecodable)
                        }
                    },
                    None => Err(TrackerError::Undecodable),
                }
            },
            None => {
                match parse_scrape_lenient(response.as_slice(), 0) {
                    Some((v2, end2)) => {
                        if end2 == response.len() {
                            Ok(v2)
                        } else {
                            Err(TrackerError::Undecodable)
                        }
                    },
                    None => Err(TrackerError::Undecodable),
                }
            },
        }
    }
}

} // verus!
