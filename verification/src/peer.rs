//! The peer wire protocol: handshake layout, length-prefixed message
//! framing, and the per-connection session state machine with its choke and
//! interest negotiation.
//!
//! Every integer on the wire is big-endian. A message is a 4-byte length
//! prefix and that many bytes; a zero length is a liveness no-op; otherwise
//! one id byte is followed by an id-specific payload.
use vstd::prelude::*;

use crate::bencode::push_slice;
use crate::bitfield::{bit_at, BitField};
use crate::errors::WireError;
use crate::tracker::TrackerPeer;
use crate::utils::copy_range;

verus! {

/// "BitTorrent protocol", the protocol identifier of the handshake.
pub const PROTOCOL: [u8; 19] = [
    66u8,
    105u8,
    116u8,
    84u8,
    111u8,
    114u8,
    114u8,
    101u8,
    110u8,
    116u8,
    32u8,
    112u8,
    114u8,
    111u8,
    116u8,
    111u8,
    99u8,
    111u8,
    108u8,
];

/// Four big-endian bytes of a 32-bit value.
pub open spec fn be32(n: u32) -> Seq<u8> {
    seq![
        (n / 0x1000000) as u8,
        ((n / 0x10000) % 256) as u8,
        ((n / 256) % 256) as u8,
        (n % 256) as u8,
    ]
}

/// The value of four big-endian bytes.
pub open spec fn be32_val(s: Seq<u8>) -> int {
    s[0] * 0x1000000 + s[1] * 0x10000 + s[2] * 256 + s[3]
}

/// Two big-endian bytes of a 16-bit value.
pub open spec fn be16(n: u16) -> Seq<u8> {
    seq![(n / 256) as u8, (n % 256) as u8]
}

/// Appends the four big-endian bytes of `n`.
pub fn push_be32(out: &mut Vec<u8>, n: u32)
    ensures
        final(out)@ == old(out)@ + be32(n),
{
    out.push((n / 0x1000000) as u8);
    out.push(((n / 0x10000) % 256) as u8);
    out.push(((n / 256) % 256) as u8);
    out.push((n % 256) as u8);
    proof {
        assert(out@ =~= old(out)@ + be32(n));
    }
}

/// Appends the two big-endian bytes of `n`.
pub fn push_be16(out: &mut Vec<u8>, n: u16)
    ensures
        final(out)@ == old(out)@ + be16(n),
{
    out.push((n / 256) as u8);
    out.push((n % 256) as u8);
    proof {
        assert(out@ =~= old(out)@ + be16(n));
    }
}

/// Reads a 32-bit big-endian value at `pos`.
pub fn read_be32(s: &[u8], pos: usize) -> (r: u32)
    requires
        pos + 4 <= s@.len(),
    ensures
        be32(r) == s@.subrange(pos as int, pos + 4),
        r == be32_val(s@.subrange(pos as int, pos + 4)),
{
    let b0 = s[pos] as u32;
    let b1 = s[pos + 1] as u32;
    let b2 = s[pos + 2] as u32;
    let b3 = s[pos + 3] as u32;
    let r = b0 * 0x1000000 + b1 * 0x10000 + b2 * 256 + b3;
    proof {
        assert(r / 0x1000000 == b0 && (r / 0x10000) % 256 == b1 && (r / 256) % 256 == b2 && r % 256
            == b3);
        assert(be32(r) =~= s@.subrange(pos as int, pos + 4));
    }
    r
}

/// Reads a 16-bit big-endian value at `pos`.
pub fn read_be16(s: &[u8], pos: usize) -> (r: u16)
    requires
        pos + 2 <= s@.len(),
    ensures
        be16(r) == s@.subrange(pos as int, pos + 2),
{
    let b0 = s[pos] as u16;
    let b1 = s[pos + 1] as u16;
    let r = b0 * 256 + b1;
    proof {
        assert(r / 256 == b0 && r % 256 == b1);
        assert(be16(r) =~= s@.subrange(pos as int, pos + 2));
    }
    r
}

/// The message ids of the wire protocol, in wire order: choke is 0, unchoke
/// 1, interested 2, not-interested 3, have 4, bitfield 5, request 6, piece
/// 7, cancel 8, port 9.
#[derive(Clone, Copy, Debug, PartialEq, Eq, Structural)]
pub enum MessageId {
    Choke,
    Unchoke,
    Interested,
    NotInterested,
    Have,
    Bitfield,
    Request,
    Piece,
    Cancel,
    Port,
}

/// The wire byte of a message id.
pub open spec fn spec_id_byte(id: MessageId) -> u8 {
    match id {
        MessageId::Choke => 0,
        MessageId::Unchoke => 1,
        MessageId::Interested => 2,
        MessageId::NotInterested => 3,
        MessageId::Have => 4,
        MessageId::Bitfield => 5,
        MessageId::Request => 6,
        MessageId::Piece => 7,
        MessageId::Cancel => 8,
        MessageId::Port => 9,
    }
}

/// The wire byte of a message id.
pub fn id_byte(id: MessageId) -> (r: u8)
    ensures
        r == spec_id_byte(id),
{
    match id {
        MessageId::Choke => 0,
        MessageId::Unchoke => 1,
        MessageId::Interested => 2,
        MessageId::NotInterested => 3,
        MessageId::Have => 4,
        MessageId::Bitfield => 5,
        MessageId::Request => 6,
        MessageId::Piece => 7,
        MessageId::Cancel => 8,
        MessageId::Port => 9,
    }
}

/// A raw frame: its length prefix, id, and payload bytes.
pub struct Message {
    pub length_prefix: u32,
    pub message_id: MessageId,
    pub payload: Vec<u8>,
}

/// The liveness no-op: a zero length prefix, no id, no payload.
pub struct KeepAlive {
    pub length_prefix: u32,
}

/// choke: `<len=0001><id=0>`.
pub struct Choke {
    pub length_prefix: u32,
    pub message_id: MessageId,
}

/// unchoke: `<len=0001><id=1>`.
pub struct Unchoke {
    pub length_prefix: u32,
    pub message_id: MessageId,
}

/// interested: `<len=0001><id=2>`.
pub struct Interested {
    pub length_prefix: u32,
    pub message_id: MessageId,
}

/// not interested: `<len=0001><id=3>`.
pub struct NotInterested {
    pub length_prefix: u32,
    pub message_id: MessageId,
}

/// have: `<len=0005><id=4><piece index>`.
pub struct Have {
    pub length_prefix: u32,
    pub message_id: MessageId,
    pub piece_index: u32,
}

/// bitfield: `<len=0001+X><id=5><bitfield>`, legal only as the first
/// message after the handshake.
pub struct Bitfield {
    pub length_prefix: u32,
    pub message_id: MessageId,
    pub bitfield: Vec<u8>,
}

/// request: `<len=0013><id=6><index><begin><length>`.
pub struct Request {
    pub length_prefix: u32,
    pub message_id: MessageId,
    pub index: u32,
    pub begin: u32,
    pub length: u32,
}

/// piece: `<len=0009+X><id=7><index><begin><block>`.
pub struct Piece {
    pub length_prefix: u32,
    pub message_id: MessageId,
    pub index: u32,
    pub begin: u32,
    pub block: Vec<u8>,
}

/// cancel: `<len=0013><id=8><index><begin><length>`.
pub struct Cancel {
    pub length_prefix: u32,
    pub message_id: MessageId,
    pub index: u32,
    pub begin: u32,
    pub length: u32,
}

/// port: `<len=0003><id=9><listen-port>`, DHT advertisement the engine
/// accepts but need not act on.
pub struct Port {
    pub length_prefix: u32,
    pub message_id: MessageId,
    pub listen_port: u16,
}

/// One decoded post-handshake message.
pub enum ParsedMessage {
    KeepAlive,
    Choke,
    Unchoke,
    Interested,
    NotInterested,
    Have(u32),
    Bitfield(Vec<u8>),
    Request(u32, u32, u32),
    Piece(u32, u32, Vec<u8>),
    Cancel(u32, u32, u32),
    Port(u16),
}

/// The exact wire frame of a message: big-endian length prefix, id byte,
/// payload.
pub open spec fn enc_message(m: ParsedMessage) -> Seq<u8> {
    match m {
        ParsedMessage::KeepAlive => be32(0),
        ParsedMessage::Choke => be32(1) + seq![0u8],
        ParsedMessage::Unchoke => be32(1) + seq![1u8],
        ParsedMessage::Interested => be32(1) + seq![2u8],
        ParsedMessage::NotInterested => be32(1) + seq![3u8],
        ParsedMessage::Have(i) => be32(5) + seq![4u8] + be32(i),
        ParsedMessage::Bitfield(b) => be32((1 + b@.len()) as u32) + seq![5u8] + b@,
        ParsedMessage::Request(i, b, l) => be32(13) + seq![6u8] + be32(i) + be32(b) + be32(l),
        ParsedMessage::Piece(i, b, d) => be32((9 + d@.len()) as u32) + seq![7u8] + be32(i) + be32(b)
            + d@,
        ParsedMessage::Cancel(i, b, l) => be32(13) + seq![8u8] + be32(i) + be32(b) + be32(l),
        ParsedMessage::Port(p) => be32(3) + seq![9u8] + be16(p),
    }
}

/// Encodes one message into its exact wire frame.
pub fn encode_message(m: &ParsedMessage) -> (r: Vec<u8>)
    requires
        m matches ParsedMessage::Bitfield(b) ==> b@.len() + 1 <= u32::MAX,
        m matches ParsedMessage::Piece(i, o, d) ==> d@.len() + 9 <= u32::MAX,
    ensures
        r@ == enc_message(*m),
{
    let mut out: Vec<u8> = Vec::new();
    match m {
        ParsedMessage::KeepAlive => {
            push_be32(&mut out, 0);
        },
        ParsedMessage::Choke => {
            push_be32(&mut out, 1);
            out.push(0);
        },
        ParsedMessage::Unchoke => {
            push_be32(&mut out, 1);
            out.push(1);
        },
        ParsedMessage::Interested => {
            push_be32(&mut out, 1);
            out.push(2);
        },
        ParsedMessage::NotInterested => {
            push_be32(&mut out, 1);
            out.push(3);
        },
        ParsedMessage::Have(i) => {
            push_be32(&mut out, 5);
            out.push(4);
            push_be32(&mut out, *i);
        },
        ParsedMessage::Bitfield(b) => {
            push_be32(&mut out, 1 + (b.len() as u32));
            out.push(5);
            push_slice(&mut out, b.as_slice());
        },
        ParsedMessage::Request(i, b, l) => {
            push_be32(&mut out, 13);
            out.push(6);
            push_be32(&mut out, *i);
            push_be32(&mut out, *b);
            push_be32(&mut out, *l);
        },
        ParsedMessage::Piece(i, b, d) => {
            push_be32(&mut out, 9 + (d.len() as u32));
            out.push(7);
            push_be32(&mut out, *i);
            push_be32(&mut out, *b);
            push_slice(&mut out, d.as_slice());
        },
        ParsedMessage::Cancel(i, b, l) => {
            push_be32(&mut out, 13);
            out.push(8);
            push_be32(&mut out, *i);
            push_be32(&mut out, *b);
            push_be32(&mut out, *l);
        },
        ParsedMessage::Port(p) => {
            push_be32(&mut out, 3);
            out.push(9);
            push_be16(&mut out, *p);
        },
    }
    proof {
        assert(out@ =~= enc_message(*m));
    }
    out
}


/// The length prefix a message's frame carries.
pub open spec fn spec_frame_len(m: ParsedMessage) -> int {
    match m {
        ParsedMessage::KeepAlive => 0,
        ParsedMessage::Choke => 1,
        ParsedMessage::Unchoke => 1,
        ParsedMessage::Interested => 1,
        ParsedMessage::NotInterested => 1,
        ParsedMessage::Have(i) => 5,
        ParsedMessage::Bitfield(b) => 1 + b@.len() as int,
        ParsedMessage::Request(i, b, l) => 13,
        ParsedMessage::Piece(i, b, d) => 9 + d@.len() as int,
        ParsedMessage::Cancel(i, b, l) => 13,
        ParsedMessage::Port(p) => 3,
    }
}

/// A message whose payload size fits the wire's 32-bit length prefix.
pub open spec fn msg_wf(m: ParsedMessage) -> bool {
    &&& (m matches ParsedMessage::Bitfield(b) ==> b@.len() + 1 <= u32::MAX)
    &&& (m matches ParsedMessage::Piece(i, o, d) ==> d@.len() + 9 <= u32::MAX)
}

/// `s` continues at `pos` with the whole frame of message `m`.
pub open spec fn msg_at(s: Seq<u8>, pos: int, m: ParsedMessage) -> bool {
    &&& 0 <= pos
    &&& msg_wf(m)
    &&& pos + enc_message(m).len() <= s.len()
    &&& s.subrange(pos, pos + enc_message(m).len() as int) == enc_message(m)
}

proof fn lemma_be32_val_of(n: u32)
    ensures
        be32_val(be32(n)) == n,
{
    assert(be32(n)[0] == (n / 0x1000000) as u8);
    assert(((n / 0x1000000) as u8) as int == n / 0x1000000);
    assert((((n / 0x10000) % 256) as u8) as int == (n / 0x10000) % 256);
    assert((((n / 256) % 256) as u8) as int == (n / 256) % 256);
    assert(((n % 256) as u8) as int == n % 256);
}

proof fn lemma_msg_at_parts(s: Seq<u8>, pos: int, m: ParsedMessage)
    requires
        msg_at(s, pos, m),
    ensures
        enc_message(m).len() == 4 + spec_frame_len(m),
        s.subrange(pos, pos + 4) == be32(spec_frame_len(m) as u32),
        be32_val(s.subrange(pos, pos + 4)) == spec_frame_len(m),
        !(m is KeepAlive) ==> spec_frame_len(m) >= 1 && s[pos + 4] == (match m {
            ParsedMessage::KeepAlive => 0u8,
            ParsedMessage::Choke => 0u8,
            ParsedMessage::Unchoke => 1u8,
            ParsedMessage::Interested => 2u8,
            ParsedMessage::NotInterested => 3u8,
            ParsedMessage::Have(i) => 4u8,
            ParsedMessage::Bitfield(b) => 5u8,
            ParsedMessage::Request(i, b, l) => 6u8,
            ParsedMessage::Piece(i, b, d) => 7u8,
            ParsedMessage::Cancel(i, b, l) => 8u8,
            ParsedMessage::Port(p) => 9u8,
        }),
{
    let el = enc_message(m).len() as int;
    let pl = spec_frame_len(m) as u32;
    assert forall|k: int| 0 <= k < 4 implies #[trigger] s.subrange(pos, pos + 4)[k] == be32(pl)[k] by {
        assert(s.subrange(pos, pos + el)[k] == enc_message(m)[k]);
        assert(s.subrange(pos, pos + el)[k] == s[pos + k]);
        assert(s.subrange(pos, pos + 4)[k] == s[pos + k]);
        assert(enc_message(m)[k] == be32(pl)[k]);
    }
    assert(s.subrange(pos, pos + 4) =~= be32(pl));
    lemma_be32_val_of(pl);
    if !(m is KeepAlive) {
        assert(s.subrange(pos, pos + el)[4] == enc_message(m)[4]);
        assert(s.subrange(pos, pos + el)[4] == s[pos + 4]);
    }
}

/// Reads one frame at `pos`. `Ok(None)` means the buffer does not yet hold
/// a whole frame; a whole frame that is not a legal message is a framing
/// error that must end the session; and every whole legal frame is read
/// back as its message.
#[verifier::rlimit(100)]
#[verifier::spinoff_prover]
pub fn parse_frame(input: &[u8], pos: usize) -> (r: Result<Option<(ParsedMessage, usize)>, WireError>)
    requires
        pos <= input@.len(),
    ensures
        r matches Ok(Some((m, end))) ==> pos < end <= input@.len() && input@.subrange(
            pos as int,
            end as int,
        ) == enc_message(m),
        r matches Ok(opt) && opt is None <==> (pos + 4 > input@.len() || pos + 4 + be32_val(
            input@.subrange(pos as int, pos + 4),
        ) > input@.len()),
        r is Err ==> (r == Result::<Option<(ParsedMessage, usize)>, WireError>::Err(
            WireError::UnknownMessageId,
        ) || r == Result::<Option<(ParsedMessage, usize)>, WireError>::Err(
            WireError::MalformedFrame,
        )),
        forall|m: ParsedMessage|
            msg_at(input@, pos as int, m) ==> (r matches Ok(o) && o matches Some(v) && v.1 == pos
                + enc_message(m).len()),
{
    let len = input.len();
    if len - pos < 4 {
        proof {
            assert forall|m: ParsedMessage| !msg_at(input@, pos as int, m) by {
                if msg_at(input@, pos as int, m) {
                    lemma_msg_at_parts(input@, pos as int, m);
                }
            }
        }
        return Ok(None);
    }
    let plen = read_be32(input, pos);
    if (plen as u64) > ((len - (pos + 4)) as u64) {
        proof {
            assert forall|m: ParsedMessage| !msg_at(input@, pos as int, m) by {
                if msg_at(input@, pos as int, m) {
                    lemma_msg_at_parts(input@, pos as int, m);
                }
            }
        }
        return Ok(None);
    }
    let n = plen as usize;
    let body = pos + 4;
    let end = body + n;
    if plen == 0 {
        proof {
            assert(input@.subrange(pos as int, end as int) =~= be32(0));
        }
        proof {
            assert forall|m: ParsedMessage| msg_at(input@, pos as int, m) implies end == pos
                + enc_message(m).len() by {
                lemma_msg_at_parts(input@, pos as int, m);
            }
        }
        return Ok(Some((ParsedMessage::KeepAlive, end)));
    }
    let id = input[body];
    if id <= 3 {
        if plen != 1 {
        proof {
                assert forall|m: ParsedMessage| !msg_at(input@, pos as int, m) by {
                    if msg_at(input@, pos as int, m) {
                        lemma_msg_at_parts(input@, pos as int, m);
                    }
                }
            }
            return Err(WireError::MalformedFrame);
        }
        let m = if id == 0 {
            ParsedMessage::Choke
        } else if id == 1 {
            ParsedMessage::Unchoke
        } else if id == 2 {
            ParsedMessage::Interested
        } else {
            ParsedMessage::NotInterested
        };
        proof {
            assert(input@.subrange(pos as int, end as int) =~= input@.subrange(pos as int, pos + 4)
                + seq![input@[body as int]]);
            assert(input@.subrange(pos as int, end as int) =~= enc_message(m));
        }
        proof {
            assert forall|m: ParsedMessage| msg_at(input@, pos as int, m) implies end == pos
                + enc_message(m).len() by {
                lemma_msg_at_parts(input@, pos as int, m);
            }
        }
        Ok(Some((m, end)))
    } else if id == 4 {
        if plen != 5 {
        proof {
                assert forall|m: ParsedMessage| !msg_at(input@, pos as int, m) by {
                    if msg_at(input@, pos as int, m) {
                        lemma_msg_at_parts(input@, pos as int, m);
                    }
                }
            }
            return Err(WireError::MalformedFrame);
        }
        let idx = read_be32(input, body + 1);
        proof {
            assert(input@.subrange(pos as int, end as int) =~= input@.subrange(pos as int, pos + 4)
                + seq![input@[body as int]] + input@.subrange(body + 1, end as int));
            assert(input@.subrange(pos as int, end as int) =~= enc_message(
                ParsedMessage::Have(idx),
            ));
        }
        proof {
            assert forall|m: ParsedMessage| msg_at(input@, pos as int, m) implies end == pos
                + enc_message(m).len() by {
                lemma_msg_at_parts(input@, pos as int, m);
            }
        }
        Ok(Some((ParsedMessage::Have(idx), end)))
    } else if id == 5 {
        let payload = copy_range(input, body + 1, n - 1);
        let m = ParsedMessage::Bitfield(payload);
        proof {
            assert(input@.subrange(pos as int, end as int) =~= input@.subrange(pos as int, pos + 4)
                + seq![input@[body as int]] + input@.subrange(body + 1, end as int));
            assert(input@.subrange(pos as int, end as int) =~= enc_message(m));
        }
        proof {
            assert forall|m: ParsedMessage| msg_at(input@, pos as int, m) implies end == pos
                + enc_message(m).len() by {
                lemma_msg_at_parts(input@, pos as int, m);
            }
        }
        Ok(Some((m, end)))
    } else if id == 6 || id == 8 {
        if plen != 13 {
        proof {
                assert forall|m: ParsedMessage| !msg_at(input@, pos as int, m) by {
                    if msg_at(input@, pos as int, m) {
                        lemma_msg_at_parts(input@, pos as int, m);
                    }
                }
            }
            return Err(WireError::MalformedFrame);
        }
        let i = read_be32(input, body + 1);
        let b = read_be32(input, body + 5);
        let l = read_be32(input, body + 9);
        let m = if id == 6 {
            ParsedMessage::Request(i, b, l)
        } else {
            ParsedMessage::Cancel(i, b, l)
        };
        proof {
            assert(input@.subrange(pos as int, end as int) =~= input@.subrange(pos as int, pos + 4)
                + seq![input@[body as int]] + input@.subrange(body + 1, body + 5) + input@.subrange(
                body + 5,
                body + 9,
            ) + input@.subrange(body + 9, end as int));
            assert(input@.subrange(pos as int, end as int) =~= enc_message(m));
        }
        proof {
            assert forall|m: ParsedMessage| msg_at(input@, pos as int, m) implies end == pos
                + enc_message(m).len() by {
                lemma_msg_at_parts(input@, pos as int, m);
            }
        }
        Ok(Some((m, end)))
    } else if id == 7 {
        if plen < 9 {
        proof {
                assert forall|m: ParsedMessage| !msg_at(input@, pos as int, m) by {
                    if msg_at(input@, pos as int, m) {
                        lemma_msg_at_parts(input@, pos as int, m);
                    }
                }
            }
            return Err(WireError::MalformedFrame);
        }
        let i = read_be32(input, body + 1);
        let b = read_be32(input, body + 5);
        let d = copy_range(input, body + 9, n - 9);
        let m = ParsedMessage::Piece(i, b, d);
        proof {
            assert(input@.subrange(pos as int, end as int) =~= input@.subrange(pos as int, pos + 4)
                + seq![input@[body as int]] + input@.subrange(body + 1, body + 5) + input@.subrange(
                body + 5,
                body + 9,
            ) + input@.subrange(body + 9, end as int));
            assert(input@.subrange(pos as int, end as int) =~= enc_message(m));
        }
        proof {
            assert forall|m: ParsedMessage| msg_at(input@, pos as int, m) implies end == pos
                + enc_message(m).len() by {
                lemma_msg_at_parts(input@, pos as int, m);
            }
        }
        Ok(Some((m, end)))
    } else if id == 9 {
        if plen != 3 {
        proof {
                assert forall|m: ParsedMessage| !msg_at(input@, pos as int, m) by {
                    if msg_at(input@, pos as int, m) {
                        lemma_msg_at_parts(input@, pos as int, m);
                    }
                }
            }
            return Err(WireError::MalformedFrame);
        }
        let p = read_be16(input, body + 1);
        proof {
            assert(input@.subrange(pos as int, end as int) =~= input@.subrange(pos as int, pos + 4)
                + seq![input@[body as int]] + input@.subrange(body + 1, end as int));
            assert(input@.subrange(pos as int, end as int) =~= enc_message(
                ParsedMessage::Port(p),
            ));
        }
        proof {
            assert forall|m: ParsedMessage| msg_at(input@, pos as int, m) implies end == pos
                + enc_message(m).len() by {
                lemma_msg_at_parts(input@, pos as int, m);
            }
        }
        Ok(Some((ParsedMessage::Port(p), end)))
    } else {
        proof {
            assert forall|m: ParsedMessage| !msg_at(input@, pos as int, m) by {
                if msg_at(input@, pos as int, m) {
                    lemma_msg_at_parts(input@, pos as int, m);
                }
            }
        }
        Err(WireError::UnknownMessageId)
    }
}

/// The handshake: 1-byte protocol-string length, the protocol string, 8
/// reserved bytes, the 20-byte content id, the 20-byte peer id.
pub struct Handshake {
    pub pstrlen: u8,
    pub pstr: Vec<u8>,
    pub reserved: [u8; 8],
    pub info_hash: [u8; 20],
    pub peer_id: [u8; 20],
}

/// The exact wire bytes of a handshake.
pub open spec fn enc_handshake(h: Handshake) -> Seq<u8> {
    seq![h.pstrlen] + h.pstr@ + h.reserved@ + h.info_hash@ + h.peer_id@
}

impl Handshake {
    /// The protocol-1.0 handshake for one torrent: protocol string
    /// "BitTorrent protocol", all reserved bytes zero.
    pub fn new(info_hash: [u8; 20], peer_id: [u8; 20]) -> (r: Self)
        ensures
            r.pstrlen == 19,
            r.pstr@ == PROTOCOL@,
            r.reserved@ =~= Seq::new(8, |i: int| 0u8),
            r.info_hash@ == info_hash@,
            r.peer_id@ == peer_id@,
    {
        let mut pstr: Vec<u8> = Vec::new();
        push_slice(&mut pstr, PROTOCOL.as_slice());
        proof {
            assert(pstr@ =~= PROTOCOL@);
        }
        let r = Handshake { pstrlen: 19, pstr, reserved: [0u8; 8], info_hash, peer_id };
        proof {
            assert(r.reserved@ =~= Seq::new(8, |i: int| 0u8));
        }
        r
    }

    /// The handshake's exact wire bytes.
    pub fn encode(&self) -> (r: Vec<u8>)
        ensures
            r@ == enc_handshake(*self),
    {
        let mut out: Vec<u8> = Vec::new();
        out.push(self.pstrlen);
        push_slice(&mut out, self.pstr.as_slice());
        push_slice(&mut out, self.reserved.as_slice());
        push_slice(&mut out, self.info_hash.as_slice());
        push_slice(&mut out, self.peer_id.as_slice());
        proof {
            assert(out@ =~= enc_handshake(*self));
        }
        out
    }

    /// Parses a received handshake. Anything but a 68-byte frame opening
    /// with the version-1.0 protocol string is malformed; the content id is
    /// checked by the session, not here.
    pub fn parse(input: &[u8]) -> (r: Result<Handshake, WireError>)
        ensures
            r matches Ok(h) ==> {
                &&& input@ == enc_handshake(h)
                &&& h.pstrlen == 19
                &&& h.pstr@ == PROTOCOL@
                &&& input@.len() == 68
            },
            r is Err ==> r == Result::<Handshake, WireError>::Err(WireError::MalformedHandshake),
            (input@.len() == 68 && input@[0] == 19 && input@.subrange(1, 20) == PROTOCOL@) ==> r
                is Ok,
    {
        let len = input.len();
        if len != 68 {
            return Err(WireError::MalformedHandshake);
        }
        if input[0] != 19 {
            return Err(WireError::MalformedHandshake);
        }
        let mut k: usize = 0;
        while k < 19
            invariant
                k <= 19,
                input@.len() == 68,
                forall|j: int| 0 <= j < k ==> input@[1 + j] == PROTOCOL@[j],
            decreases 19 - k,
        {
            if input[1 + k] != PROTOCOL[k] {
                proof {
                    if input@.subrange(1, 20) == PROTOCOL@ {
                        assert(input@.subrange(1, 20)[k as int] == input@[1 + k]);
                    }
                }
                return Err(WireError::MalformedHandshake);
            }
            k = k + 1;
        }
        let pstr = copy_range(input, 1, 19);
        let mut reserved = [0u8; 8];
        let mut k: usize = 0;
        while k < 8
            invariant
                k <= 8,
                input@.len() == 68,
                forall|j: int| 0 <= j < k ==> reserved@[j] == input@[20 + j],
            decreases 8 - k,
        {
            reserved[k] = input[20 + k];
            k = k + 1;
        }
        let mut info_hash = [0u8; 20];
        let mut k: usize = 0;
        while k < 20
            invariant
                k <= 20,
                input@.len() == 68,
                forall|j: int| 0 <= j < k ==> info_hash@[j] == input@[28 + j],
            decreases 20 - k,
        {
            info_hash[k] = input[28 + k];
            k = k + 1;
        }
        let mut peer_id = [0u8; 20];
        let mut k: usize = 0;
        while k < 20
            invariant
                k <= 20,
                input@.len() == 68,
                forall|j: int| 0 <= j < k ==> peer_id@[j] == input@[48 + j],
            decreases 20 - k,
        {
            peer_id[k] = input[48 + k];
            k = k + 1;
        }
        let h = Handshake { pstrlen: 19, pstr, reserved, info_hash, peer_id };
        proof {
            assert(h.pstr@ =~= PROTOCOL@);
            assert(input@ =~= enc_handshake(h));
        }
        Ok(h)
    }
}

/// Lifecycle of one peer connection.
#[derive(Clone, Copy, Debug, PartialEq, Eq, Structural)]
pub enum SessionState {
    Connecting,
    AwaitingHandshake,
    Established,
    Closed,
}

/// One request this side has issued and not yet seen answered.
#[derive(Clone, Copy, Debug, PartialEq, Eq, Structural)]
pub struct PendingRequest {
    pub index: u32,
    pub begin: u32,
    pub length: u32,
}

/// The outstanding-request ceiling per session: a small constant pipeline
/// depth bounding memory and the load on a slow peer.
pub const MAX_OUTSTANDING: usize = 8;

/// `s` with every request for block (`index`, `begin`) removed, order kept.
pub open spec fn without_request(s: Seq<PendingRequest>, index: u32, begin: u32) -> Seq<
    PendingRequest,
>
    decreases s.len(),
{
    if s.len() == 0 {
        Seq::empty()
    } else {
        without_request(s.drop_last(), index, begin) + (if s.last().index == index
            && s.last().begin == begin {
            Seq::<PendingRequest>::empty()
        } else {
            seq![s.last()]
        })
    }
}

/// The ghost image of a peer session.
#[verifier::ext_equal]
pub struct PeerWireView {
    pub peer: TrackerPeer,
    pub am_choking: bool,
    pub am_interested: bool,
    pub peer_choking: bool,
    pub peer_interested: bool,
    pub peer_bitfield: Seq<bool>,
    pub bitfield: Seq<bool>,
    pub state: SessionState,
    pub outstanding: Seq<PendingRequest>,
    pub bitfield_allowed: bool,
    pub info_hash: Seq<u8>,
    pub num_pieces: int,
}

/// Data may flow to the requester only when it is interested and the holder
/// is not choking it; this is this side's download direction.
pub open spec fn may_download(v: PeerWireView) -> bool {
    v.am_interested && !v.peer_choking
}

/// One peer connection: handshake expectations, the four negotiation flags,
/// the remote bit field, and the outstanding-request pipeline.
pub struct PeerWire {
    info: TrackerPeer,
    am_choking: bool,
    am_interested: bool,
    peer_choking: bool,
    peer_interested: bool,
    peer_bitfield: BitField,
    bitfield: BitField,
    state: SessionState,
    outstanding: Vec<PendingRequest>,
    bitfield_allowed: bool,
    info_hash: [u8; 20],
    num_pieces: usize,
}

impl View for PeerWire {
    type V = PeerWireView;

    closed spec fn view(&self) -> PeerWireView {
        PeerWireView {
            peer: self.info,
            am_choking: self.am_choking,
            am_interested: self.am_interested,
            peer_choking: self.peer_choking,
            peer_interested: self.peer_interested,
            peer_bitfield: self.peer_bitfield@,
            bitfield: self.bitfield@,
            state: self.state,
            outstanding: self.outstanding@,
            bitfield_allowed: self.bitfield_allowed,
            info_hash: self.info_hash@,
            num_pieces: self.num_pieces as int,
        }
    }
}

impl PeerWire {
    #[verifier::type_invariant]
    spec fn wf(self) -> bool {
        &&& self.peer_bitfield@.len() == self.num_pieces
        &&& self.bitfield@.len() == self.num_pieces
    }

    /// A session for one peer address, not yet connected: both sides start
    /// choked and not interested, the remote bit field starts empty.
    pub fn new(info: TrackerPeer, num_pieces: usize, info_hash: [u8; 20]) -> (r: Self)
        ensures
            r@.peer == info,
            r@.state == SessionState::Connecting,
            r@.am_choking && !r@.am_interested && r@.peer_choking && !r@.peer_interested,
            r@.peer_bitfield =~= Seq::new(num_pieces as nat, |i: int| false),
            r@.bitfield =~= Seq::new(num_pieces as nat, |i: int| false),
            r@.outstanding == Seq::<PendingRequest>::empty(),
            r@.bitfield_allowed,
            r@.info_hash == info_hash@,
            r@.num_pieces == num_pieces,
    {
        PeerWire {
            info,
            am_choking: true,
            am_interested: false,
            peer_choking: true,
            peer_interested: false,
            peer_bitfield: BitField::new(num_pieces),
            bitfield: BitField::new(num_pieces),
            state: SessionState::Connecting,
            outstanding: Vec::new(),
            bitfield_allowed: true,
            info_hash,
            num_pieces,
        }
    }

    /// The transport is open: the session awaits the remote handshake, and
    /// this side's handshake is the returned bytes, to be sent immediately.
    pub fn on_connected(&mut self, local_peer_id: [u8; 20]) -> (r: Vec<u8>)
        requires
            old(self)@.state == SessionState::Connecting,
        ensures
            final(self)@ == (PeerWireView {
                state: SessionState::AwaitingHandshake,
                ..old(self)@
            }),
            r@ == seq![19u8] + PROTOCOL@ + Seq::new(8, |i: int| 0u8) + old(self)@.info_hash
                + local_peer_id@,
    {
        proof {
            use_type_invariant(&*self);
        }
        self.state = SessionState::AwaitingHandshake;
        let h = Handshake::new(self.info_hash, local_peer_id);
        let out = h.encode();
        proof {
            assert(out@ =~= seq![19u8] + PROTOCOL@ + Seq::new(8, |i: int| 0u8) + self@.info_hash
                + local_peer_id@);
        }
        out
    }

    /// The remote handshake arrived. A content id equal byte-for-byte to
    /// the expected one establishes the session and resets all four flags
    /// to choked-and-not-interested; any other content id is fatal to the
    /// session. A peer id differing from the tracker's claim is tolerated.
    pub fn on_handshake(&mut self, h: &Handshake) -> (r: Result<(), WireError>)
        requires
            old(self)@.state == SessionState::AwaitingHandshake,
        ensures
            r is Ok <==> h.info_hash@ == old(self)@.info_hash,
            r is Ok ==> final(self)@ == (PeerWireView {
                state: SessionState::Established,
                am_choking: true,
                am_interested: false,
                peer_choking: true,
                peer_interested: false,
                bitfield_allowed: true,
                ..old(self)@
            }),
            r is Err ==> r == Result::<(), WireError>::Err(WireError::ContentIdMismatch) && final(self)@ == (PeerWireView { state: SessionState::Closed, ..old(self)@ }),
    {
        proof {
            use_type_invariant(&*self);
        }
        let mut same = true;
        let mut k: usize = 0;
        while k < 20
            invariant
                k <= 20,
                same == (forall|j: int| 0 <= j < k ==> h.info_hash@[j] == self.info_hash@[j]),
                self.info_hash@.len() == 20,
                h.info_hash@.len() == 20,
            decreases 20 - k,
        {
            if h.info_hash[k] != self.info_hash[k] {
                same = false;
            }
            k = k + 1;
        }
        proof {
            if same {
                assert(h.info_hash@ =~= self.info_hash@);
            }
        }
        if same {
            self.state = SessionState::Established;
            self.am_choking = true;
            self.am_interested = false;
            self.peer_choking = true;
            self.peer_interested = false;
            self.bitfield_allowed = true;
            Ok(())
        } else {
            self.state = SessionState::Closed;
            Err(WireError::ContentIdMismatch)
        }
    }

    /// Ends the session locally.
    pub fn close(&mut self)
        ensures
            final(self)@ == (PeerWireView { state: SessionState::Closed, ..old(self)@ }),
    {
        proof {
            use_type_invariant(&*self);
        }
        self.state = SessionState::Closed;
    }
}

impl PeerWire {
    /// Applies one received message to the session. A keep-alive advances
    /// nothing. A `choke` cancels every request this side had outstanding to
    /// the peer, with no `cancel` exchange. A `bitfield` is legal only as
    /// the first message after the handshake and must fit the piece count
    /// exactly. A `piece` yields the delivered block and retires its
    /// outstanding request. Any out-of-range piece index or malformed
    /// message is fatal to this session alone.
    pub fn on_message(&mut self, m: ParsedMessage) -> (r: Result<Option<crate::piece::Block>, WireError>)
        requires
            old(self)@.state == SessionState::Established,
            m matches ParsedMessage::Piece(i, b, d) ==> d@.len() <= u32::MAX,
        ensures
            r is Err ==> final(self)@ == (PeerWireView {
                state: SessionState::Closed,
                ..old(self)@
            }),
            m == ParsedMessage::KeepAlive ==> (r matches Ok(o) && o is None && final(self)@
                == old(self)@),
            m == ParsedMessage::Choke ==> (r matches Ok(o) && o is None && final(self)@
                == (PeerWireView {
                peer_choking: true,
                outstanding: Seq::<PendingRequest>::empty(),
                bitfield_allowed: false,
                ..old(self)@
            })),
            m == ParsedMessage::Unchoke ==> (r matches Ok(o) && o is None && final(self)@
                == (PeerWireView { peer_choking: false, bitfield_allowed: false, ..old(self)@ })),
            m == ParsedMessage::Interested ==> (r matches Ok(o) && o is None && final(self)@
                == (PeerWireView { peer_interested: true, bitfield_allowed: false, ..old(self)@ })),
            m == ParsedMessage::NotInterested ==> (r matches Ok(o) && o is None && final(self)@
                == (PeerWireView {
                peer_interested: false,
                bitfield_allowed: false,
                ..old(self)@
            })),
            m matches ParsedMessage::Have(i) ==> {
                &&& i < old(self)@.num_pieces ==> (r matches Ok(o) && o is None && final(self)@
                    == (PeerWireView {
                    peer_bitfield: old(self)@.peer_bitfield.update(i as int, true),
                    bitfield_allowed: false,
                    ..old(self)@
                }))
                &&& i >= old(self)@.num_pieces ==> r == Result::<
                    Option<crate::piece::Block>,
                    WireError,
                >::Err(WireError::OutOfRangePieceIndex)
            },
            m matches ParsedMessage::Bitfield(b) ==> {
                &&& !old(self)@.bitfield_allowed ==> r == Result::<
                    Option<crate::piece::Block>,
                    WireError,
                >::Err(WireError::MalformedFrame)
                &&& old(self)@.bitfield_allowed && b@.len() != (old(self)@.num_pieces + 7) / 8
                    ==> r == Result::<Option<crate::piece::Block>, WireError>::Err(
                    WireError::BadBitfieldLength,
                )
                &&& old(self)@.bitfield_allowed && b@.len() == (old(self)@.num_pieces + 7) / 8
                    ==> (r matches Ok(o) && o is None && final(self)@ == (PeerWireView {
                    peer_bitfield: Seq::new(
                        old(self)@.num_pieces as nat,
                        |i: int| bit_at(b@[i / 8], i % 8),
                    ),
                    bitfield_allowed: false,
                    ..old(self)@
                }))
            },
            m matches ParsedMessage::Request(i, b, l) ==> {
                &&& i < old(self)@.num_pieces ==> (r matches Ok(o) && o is None && final(self)@
                    == (PeerWireView { bitfield_allowed: false, ..old(self)@ }))
                &&& i >= old(self)@.num_pieces ==> r == Result::<
                    Option<crate::piece::Block>,
                    WireError,
                >::Err(WireError::OutOfRangePieceIndex)
            },
            m matches ParsedMessage::Cancel(i, b, l) ==> {
                &&& i < old(self)@.num_pieces ==> (r matches Ok(o) && o is None && final(self)@
                    == (PeerWireView { bitfield_allowed: false, ..old(self)@ }))
                &&& i >= old(self)@.num_pieces ==> r == Result::<
                    Option<crate::piece::Block>,
                    WireError,
                >::Err(WireError::OutOfRangePieceIndex)
            },
            m matches ParsedMessage::Piece(i, begin, data) ==> {
                &&& i < old(self)@.num_pieces ==> (r matches Ok(o) && o matches Some(blk)
                    && blk.piece_index == i && blk.begin == begin && blk.length == data@.len()
                    && blk.data@ == data@ && final(self)@ == (PeerWireView {
                    outstanding: without_request(old(self)@.outstanding, i, begin),
                    bitfield_allowed: false,
                    ..old(self)@
                }))
                &&& i >= old(self)@.num_pieces ==> r == Result::<
                    Option<crate::piece::Block>,
                    WireError,
                >::Err(WireError::OutOfRangePieceIndex)
            },
            m matches ParsedMessage::Port(p) ==> (r matches Ok(o) && o is None && final(self)@
                == (PeerWireView { bitfield_allowed: false, ..old(self)@ })),
    {
        proof {
            use_type_invariant(&*self);
        }
        match m {
            ParsedMessage::KeepAlive => Ok(None),
            ParsedMessage::Choke => {
                self.peer_choking = true;
                self.outstanding = Vec::new();
                self.bitfield_allowed = false;
                Ok(None)
            },
            ParsedMessage::Unchoke => {
                self.peer_choking = false;
                self.bitfield_allowed = false;
                Ok(None)
            },
            ParsedMessage::Interested => {
                self.peer_interested = true;
                self.bitfield_allowed = false;
                Ok(None)
            },
            ParsedMessage::NotInterested => {
                self.peer_interested = false;
                self.bitfield_allowed = false;
                Ok(None)
            },
            ParsedMessage::Have(i) => {
                if (i as usize) >= self.num_pieces {
                    self.state = SessionState::Closed;
                    return Err(WireError::OutOfRangePieceIndex);
                }
                let mut pb = self.peer_bitfield.clone();
                pb.set(i as usize);
                self.peer_bitfield = pb;
                self.bitfield_allowed = false;
                Ok(None)
            },
            ParsedMessage::Bitfield(b) => {
                if !self.bitfield_allowed {
                    self.state = SessionState::Closed;
                    return Err(WireError::MalformedFrame);
                }
                let want = self.num_pieces / 8 + if self.num_pieces % 8 != 0 {
                    1
                } else {
                    0
                };
                if b.len() != want {
                    self.state = SessionState::Closed;
                    return Err(WireError::BadBitfieldLength);
                }
                let nb = BitField::from_bytes(b.as_slice(), self.num_pieces);
                self.peer_bitfield = nb;
                self.bitfield_allowed = false;
                proof {
                    assert(self@.peer_bitfield =~= Seq::new(
                        old(self)@.num_pieces as nat,
                        |i: int| bit_at(b@[i / 8], i % 8),
                    ));
                }
                Ok(None)
            },
            ParsedMessage::Request(i, _begin, _len) => {
                if (i as usize) >= self.num_pieces {
                    self.state = SessionState::Closed;
                    return Err(WireError::OutOfRangePieceIndex);
                }
                self.bitfield_allowed = false;
                Ok(None)
            },
            ParsedMessage::Cancel(i, _begin, _len) => {
                if (i as usize) >= self.num_pieces {
                    self.state = SessionState::Closed;
                    return Err(WireError::OutOfRangePieceIndex);
                }
                self.bitfield_allowed = false;
                Ok(None)
            },
            ParsedMessage::Piece(i, begin, data) => {
                if (i as usize) >= self.num_pieces {
                    self.state = SessionState::Closed;
                    return Err(WireError::OutOfRangePieceIndex);
                }
                let n = self.outstanding.len();
                let mut kept: Vec<PendingRequest> = Vec::new();
                let mut k: usize = 0;
                proof {
                    assert(kept@ =~= without_request(self.outstanding@.take(0), i, begin));
                }
                while k < n
                    invariant
                        k <= n,
                        n == self.outstanding@.len(),
                        kept@ == without_request(self.outstanding@.take(k as int), i, begin),
                    decreases n - k,
                {
                    proof {
                        assert(self.outstanding@.take(k + 1).drop_last() =~= self.outstanding@.take(
                            k as int,
                        ));
                        assert(self.outstanding@.take(k + 1).last() == self.outstanding@[k as int]);
                    }
                    let q = self.outstanding[k];
                    if !(q.index == i && q.begin == begin) {
                        kept.push(q);
                    }
                    proof {
                        assert(kept@ =~= without_request(self.outstanding@.take(k + 1), i, begin));
                    }
                    k = k + 1;
                }
                proof {
                    assert(self.outstanding@.take(n as int) =~= self.outstanding@);
                }
                self.outstanding = kept;
                self.bitfield_allowed = false;
                let length = data.len() as u32;
                Ok(Some(crate::piece::Block { piece_index: i, begin, length, data }))
            },
            ParsedMessage::Port(_p) => {
                self.bitfield_allowed = false;
                Ok(None)
            },
        }
    }

    /// Issues one block request if the protocol allows it now: the session
    /// established, the peer not choking this side, the pipeline below its
    /// ceiling, the index in range. Returns the frame to send and records
    /// the request as outstanding; otherwise nothing changes.
    pub fn send_request(&mut self, index: u32, begin: u32, length: u32) -> (r: Option<Vec<u8>>)
        ensures
            r is Some <==> (old(self)@.state == SessionState::Established && !old(
                self,
            )@.peer_choking && old(self)@.outstanding.len() < MAX_OUTSTANDING && index < old(
                self,
            )@.num_pieces),
            r matches Some(frame) ==> {
                &&& frame@ == enc_message(ParsedMessage::Request(index, begin, length))
                &&& final(self)@ == (PeerWireView {
                    outstanding: old(self)@.outstanding.push(
                        PendingRequest { index, begin, length },
                    ),
                    ..old(self)@
                })
            },
            r is None ==> final(self)@ == old(self)@,
    {
        proof {
            use_type_invariant(&*self);
        }
        if !(matches!(self.state, SessionState::Established)) {
            return None;
        }
        if self.peer_choking {
            return None;
        }
        if self.outstanding.len() >= MAX_OUTSTANDING {
            return None;
        }
        if (index as usize) >= self.num_pieces {
            return None;
        }
        let mut outstanding: Vec<PendingRequest> = Vec::new();
        core::mem::swap(&mut outstanding, &mut self.outstanding);
        outstanding.push(PendingRequest { index, begin, length });
        core::mem::swap(&mut outstanding, &mut self.outstanding);
        let frame = encode_message(&ParsedMessage::Request(index, begin, length));
        Some(frame)
    }

    /// Brings this side's interest flag to `interested`. When the flag
    /// changes, the frame that tells the peer so is returned and must be
    /// sent promptly; when it already matches, nothing changes.
    pub fn update_interest(&mut self, interested: bool) -> (r: Option<Vec<u8>>)
        requires
            old(self)@.state == SessionState::Established,
        ensures
            r is Some <==> interested != old(self)@.am_interested,
            r matches Some(frame) ==> {
                &&& frame@ == enc_message(
                    if interested {
                        ParsedMessage::Interested
                    } else {
                        ParsedMessage::NotInterested
                    },
                )
                &&& final(self)@ == (PeerWireView { am_interested: interested, ..old(self)@ })
            },
            r is None ==> final(self)@ == old(self)@,
    {
        proof {
            use_type_invariant(&*self);
        }
        if interested == self.am_interested {
            return None;
        }
        self.am_interested = interested;
        let frame = if interested {
            encode_message(&ParsedMessage::Interested)
        } else {
            encode_message(&ParsedMessage::NotInterested)
        };
        Some(frame)
    }

    /// Brings this side's choke flag to `choking`, returning the frame to
    /// send when the flag changes.
    pub fn set_choking(&mut self, choking: bool) -> (r: Option<Vec<u8>>)
        requires
            old(self)@.state == SessionState::Established,
        ensures
            r is Some <==> choking != old(self)@.am_choking,
            r matches Some(frame) ==> {
                &&& frame@ == enc_message(
                    if choking {
                        ParsedMessage::Choke
                    } else {
                        ParsedMessage::Unchoke
                    },
                )
                &&& final(self)@ == (PeerWireView { am_choking: choking, ..old(self)@ })
            },
            r is None ==> final(self)@ == old(self)@,
    {
        proof {
            use_type_invariant(&*self);
        }
        if choking == self.am_choking {
            return None;
        }
        self.am_choking = choking;
        let frame = if choking {
            encode_message(&ParsedMessage::Choke)
        } else {
            encode_message(&ParsedMessage::Unchoke)
        };
        Some(frame)
    }

    /// The peer's advertised pieces.
    pub fn peer_bitfield(&self) -> (r: &BitField)
        ensures
            r@ == self@.peer_bitfield,
    {
        &self.peer_bitfield
    }

    /// The peer this session talks to.
    pub fn peer(&self) -> (r: &TrackerPeer)
        ensures
            *r == self@.peer,
    {
        &self.info
    }

    /// The session's lifecycle state.
    pub fn state(&self) -> (r: SessionState)
        ensures
            r == self@.state,
    {
        self.state
    }

    /// Whether the peer is choking this side.
    pub fn peer_choking(&self) -> (r: bool)
        ensures
            r == self@.peer_choking,
    {
        self.peer_choking
    }

    /// The requests this side has outstanding to the peer.
    pub fn outstanding(&self) -> (r: &Vec<PendingRequest>)
        ensures
            r@ == self@.outstanding,
    {
        &self.outstanding
    }
}

/// An idle session is dead: no message, not even a liveness no-op, within
/// the idle window means the connection should be closed.
pub const IDLE_TIMEOUT_MS: u64 = 120000;

/// Whether a session is to be treated as dead, given the time of its last
/// inbound activity.
pub fn idle_expired(last_activity_ms: u64, now_ms: u64) -> (r: bool)
    ensures
        r == (now_ms >= last_activity_ms + IDLE_TIMEOUT_MS),
{
    now_ms >= IDLE_TIMEOUT_MS && now_ms - IDLE_TIMEOUT_MS >= last_activity_ms
}

impl PeerWire {
    /// Retires every outstanding request for block (`index`, `begin`) on
    /// this session and returns the `cancel` frame to send. Used when the
    /// first delivery of a block wins: duplicate in-flight requests to other
    /// peers are cancelled once the block is marked received. Returns
    /// nothing, and changes nothing, when no such request is outstanding.
    pub fn retire_request(&mut self, index: u32, begin: u32) -> (r: Option<Vec<u8>>)
        ensures
            r is Some <==> exists|q: int|
                0 <= q < old(self)@.outstanding.len() && (#[trigger] old(self)@.outstanding[
                q]).index == index && old(self)@.outstanding[q].begin == begin,
            r matches Some(frame) ==> {
                &&& final(self)@ == (PeerWireView {
                    outstanding: without_request(old(self)@.outstanding, index, begin),
                    ..old(self)@
                })
                &&& exists|q: int|
                    {
                        &&& 0 <= q < old(self)@.outstanding.len()
                        &&& (#[trigger] old(self)@.outstanding[q]).index == index
                        &&& old(self)@.outstanding[q].begin == begin
                        &&& frame@ == enc_message(
                            ParsedMessage::Cancel(
                                index,
                                begin,
                                old(self)@.outstanding[q].length,
                            ),
                        )
                    }
            },
            r is None ==> final(self)@ == old(self)@,
    {
        proof {
            use_type_invariant(&*self);
        }
        let n = self.outstanding.len();
        let mut found = false;
        let mut length: u32 = 0;
        let mut kept: Vec<PendingRequest> = Vec::new();
        let mut k: usize = 0;
        proof {
            assert(kept@ =~= without_request(self.outstanding@.take(0), index, begin));
        }
        while k < n
            invariant
                k <= n,
                n == self.outstanding@.len(),
                kept@ == without_request(self.outstanding@.take(k as int), index, begin),
                found <==> exists|q: int|
                    0 <= q < k && (#[trigger] self.outstanding@[q]).index == index
                        && self.outstanding@[q].begin == begin,
                found ==> exists|q: int|
                    0 <= q < k && (#[trigger] self.outstanding@[q]).index == index
                        && self.outstanding@[q].begin == begin && self.outstanding@[q].length
                        == length,
            decreases n - k,
        {
            proof {
                assert(self.outstanding@.take(k + 1).drop_last() =~= self.outstanding@.take(
                    k as int,
                ));
                assert(self.outstanding@.take(k + 1).last() == self.outstanding@[k as int]);
            }
            let q = self.outstanding[k];
            if q.index == index && q.begin == begin {
                if !found {
                    found = true;
                    length = q.length;
                }
                proof {
                    assert(self.outstanding@[k as int].index == index);
                }
            } else {
                kept.push(q);
            }
            proof {
                assert(kept@ =~= without_request(self.outstanding@.take(k + 1), index, begin));
            }
            k = k + 1;
        }
        proof {
            assert(self.outstanding@.take(n as int) =~= self.outstanding@);
        }
        if !found {
            return None;
        }
        self.outstanding = kept;
        let frame = encode_message(&ParsedMessage::Cancel(index, begin, length));
        Some(frame)
    }
}

} // verus!
