//! Canonical bencode primitives: minimal decimal integers, length-prefixed
//! byte strings, and the framing bytes for integers, lists and dictionaries.
//!
//! The encoder emits exactly the canonical form (dictionary keys sorted,
//! integers in minimal decimal). The parsers are strict and two-sided:
//! whenever a parse succeeds, the consumed bytes are exactly the canonical
//! encoding of the returned value, and every whole canonical encoding of an
//! in-range value is accepted.
use vstd::prelude::*;

verus! {

/// 'i', the integer opener.
pub const TOK_INT: u8 = 105;

/// 'l', the list opener.
pub const TOK_LIST: u8 = 108;

/// 'd', the dictionary opener.
pub const TOK_DICT: u8 = 100;

/// 'e', the closer for integers, lists and dictionaries.
pub const TOK_END: u8 = 101;

/// ':', separating a byte string's length from its contents.
pub const TOK_COLON: u8 = 58;

/// '-', the minus sign.
pub const TOK_MINUS: u8 = 45;

/// ASCII decimal digit.
pub open spec fn is_digit(b: u8) -> bool {
    48 <= b <= 57
}

/// Minimal decimal representation of `n` (no leading zeroes).
pub open spec fn dec_digits(n: nat) -> Seq<u8>
    decreases n,
{
    if n < 10 {
        seq![(48 + n) as u8]
    } else {
        dec_digits(n / 10) + seq![(48 + n % 10) as u8]
    }
}

/// Canonical encoding of an integer: 'i', minimal decimal (with '-' for
/// negative values), 'e'.
pub open spec fn enc_int(i: int) -> Seq<u8> {
    if i >= 0 {
        seq![TOK_INT] + dec_digits(i as nat) + seq![TOK_END]
    } else {
        seq![TOK_INT, TOK_MINUS] + dec_digits((-i) as nat) + seq![TOK_END]
    }
}

/// Canonical encoding of a byte string: decimal length, ':', the bytes.
pub open spec fn enc_bytes(s: Seq<u8>) -> Seq<u8> {
    dec_digits(s.len()) + seq![TOK_COLON] + s
}


/// Shape of a minimal decimal: nonempty, all digits, and a leading '0' only
/// for zero itself.
pub proof fn lemma_dec_digits_shape(n: nat)
    ensures
        dec_digits(n).len() >= 1,
        forall|k: int| 0 <= k < dec_digits(n).len() ==> is_digit(#[trigger] dec_digits(n)[k]),
        dec_digits(n)[0] == 48 ==> n == 0,
    decreases n,
{
    if n >= 10 {
        lemma_dec_digits_shape(n / 10);
    }
}

/// Minimal decimals are unambiguous: equal digit strings mean equal values.
pub proof fn lemma_dec_digits_injective(a: nat, b: nat)
    requires
        dec_digits(a) == dec_digits(b),
    ensures
        a == b,
    decreases a,
{
    lemma_dec_digits_shape(a);
    lemma_dec_digits_shape(b);
    if a < 10 && b < 10 {
        assert(dec_digits(a)[0] == dec_digits(b)[0]);
    } else if a >= 10 && b >= 10 {
        assert(dec_digits(a).last() == dec_digits(b).last());
        assert(dec_digits(a).last() == (48 + a % 10) as u8);
        assert(dec_digits(b).last() == (48 + b % 10) as u8);
        assert(((48 + a % 10) as u8) as int == 48 + a % 10);
        assert(((48 + b % 10) as u8) as int == 48 + b % 10);
        assert(a % 10 == b % 10);
        assert((dec_digits(a / 10) + seq![(48 + a % 10) as u8]).drop_last() =~= dec_digits(
            a / 10,
        ));
        assert((dec_digits(b / 10) + seq![(48 + b % 10) as u8]).drop_last() =~= dec_digits(
            b / 10,
        ));
        lemma_dec_digits_injective(a / 10, b / 10);
    } else if a < 10 {
        assert(dec_digits(b).len() == dec_digits(b / 10).len() + 1);
        lemma_dec_digits_shape(b / 10);
        assert(false);
    } else {
        assert(dec_digits(a).len() == dec_digits(a / 10).len() + 1);
        lemma_dec_digits_shape(a / 10);
        assert(false);
    }
}

/// A value whose minimal decimal is a prefix of another's is no larger.
pub proof fn lemma_dec_digits_prefix_le(a: nat, b: nat, rest: Seq<u8>)
    requires
        dec_digits(b) == dec_digits(a) + rest,
    ensures
        a <= b,
    decreases rest.len(),
{
    if rest.len() == 0 {
        assert(dec_digits(a) =~= dec_digits(b));
        lemma_dec_digits_injective(a, b);
    } else {
        lemma_dec_digits_shape(a);
        if b < 10 {
            assert(dec_digits(b).len() == 1);
            assert(dec_digits(a).len() >= 1 && rest.len() >= 1);
            assert(false);
        } else {
            assert((dec_digits(b / 10) + seq![(48 + b % 10) as u8]).drop_last() =~= dec_digits(
                b / 10,
            ));
            assert((dec_digits(a) + rest).drop_last() =~= dec_digits(a) + rest.drop_last());
            lemma_dec_digits_prefix_le(a, b / 10, rest.drop_last());
        }
    }
}

/// `s` continues at `pos` with the minimal decimal of `m`, followed by a
/// non-digit or the end of `s`.
pub open spec fn number_at(s: Seq<u8>, pos: int, m: u64) -> bool {
    &&& pos + dec_digits(m as nat).len() <= s.len()
    &&& s.subrange(pos, pos + dec_digits(m as nat).len() as int) == dec_digits(m as nat)
    &&& (pos + dec_digits(m as nat).len() == s.len() || !is_digit(
        s[pos + dec_digits(m as nat).len() as int],
    ))
}


/// `s` continues at `pos` with exactly the bytes `e`.
pub open spec fn at_seq(s: Seq<u8>, pos: int, e: Seq<u8>) -> bool {
    &&& 0 <= pos
    &&& pos + e.len() <= s.len()
    &&& s.subrange(pos, pos + e.len() as int) == e
}

/// What continues with a concatenation continues with each part in turn.
pub proof fn lemma_at_seq_split(s: Seq<u8>, pos: int, e1: Seq<u8>, e2: Seq<u8>)
    requires
        at_seq(s, pos, e1 + e2),
    ensures
        at_seq(s, pos, e1),
        at_seq(s, pos + e1.len(), e2),
{
    let l1 = e1.len() as int;
    let l2 = e2.len() as int;
    assert forall|k: int| 0 <= k < l1 implies #[trigger] s.subrange(pos, pos + l1)[k] == e1[k] by {
        assert(s.subrange(pos, pos + l1 + l2)[k] == (e1 + e2)[k]);
        assert(s.subrange(pos, pos + l1 + l2)[k] == s[pos + k]);
        assert(s.subrange(pos, pos + l1)[k] == s[pos + k]);
    }
    assert(s.subrange(pos, pos + l1) =~= e1);
    assert forall|k: int| 0 <= k < l2 implies #[trigger] s.subrange(
        pos + l1,
        pos + l1 + l2,
    )[k] == e2[k] by {
        assert(s.subrange(pos, pos + l1 + l2)[l1 + k] == (e1 + e2)[l1 + k]);
        assert(s.subrange(pos, pos + l1 + l2)[l1 + k] == s[pos + l1 + k]);
        assert(s.subrange(pos + l1, pos + l1 + l2)[k] == s[pos + l1 + k]);
    }
    assert(s.subrange(pos + l1, pos + l1 + l2) =~= e2);
}

/// What continues with `e` continues with any leading part of `e`.
pub proof fn lemma_at_seq_take(s: Seq<u8>, pos: int, e: Seq<u8>, m: int)
    requires
        at_seq(s, pos, e),
        0 <= m <= e.len(),
    ensures
        at_seq(s, pos, e.subrange(0, m)),
{
    assert forall|k: int| 0 <= k < m implies #[trigger] s.subrange(pos, pos + m)[k] == e.subrange(
        0,
        m,
    )[k] by {
        assert(s.subrange(pos, pos + e.len() as int)[k] == e[k]);
        assert(s.subrange(pos, pos + e.len() as int)[k] == s[pos + k]);
        assert(s.subrange(pos, pos + m)[k] == s[pos + k]);
    }
    assert(s.subrange(pos, pos + m) =~= e.subrange(0, m));
}


/// What continues with `e` continues, within it, with any stated slice of
/// `e`.
pub proof fn lemma_at_seq_within(s: Seq<u8>, base: int, e: Seq<u8>, a: int, f: Seq<u8>)
    requires
        at_seq(s, base, e),
        0 <= a,
        a + f.len() <= e.len(),
        e.subrange(a, a + f.len() as int) == f,
    ensures
        at_seq(s, base + a, f),
{
    let fl = f.len() as int;
    assert forall|k: int| 0 <= k < fl implies #[trigger] s.subrange(
        base + a,
        base + a + fl,
    )[k] == f[k] by {
        assert(s.subrange(base, base + e.len() as int)[a + k] == e[a + k]);
        assert(s.subrange(base, base + e.len() as int)[a + k] == s[base + a + k]);
        assert(s.subrange(base + a, base + a + fl)[k] == s[base + a + k]);
        assert(e.subrange(a, a + fl)[k] == e[a + k]);
    }
    assert(s.subrange(base + a, base + a + fl) =~= f);
}

/// Two whole byte-string encodings at the same place encode the same string.
pub proof fn lemma_enc_bytes_unique(s: Seq<u8>, pos: int, x: Seq<u8>, y: Seq<u8>)
    requires
        at_seq(s, pos, enc_bytes(x)),
        at_seq(s, pos, enc_bytes(y)),
        s.len() <= u64::MAX,
    ensures
        x == y,
{
    lemma_bytes_at_parts(s, pos, x);
    lemma_bytes_at_parts(s, pos, y);
    let dx = dec_digits(x.len()).len() as int;
    let dy = dec_digits(y.len()).len() as int;
    lemma_dec_digits_shape(x.len());
    lemma_dec_digits_shape(y.len());
    if dx < dy {
        assert(s[pos + dx] == TOK_COLON);
        assert(is_digit(dec_digits(y.len())[dx]));
        assert(number_at(s, pos, y.len() as u64));
        assert(s.subrange(pos, pos + dy)[dx] == s[pos + dx]);
        assert(false);
    }
    if dy < dx {
        assert(s[pos + dy] == TOK_COLON);
        assert(number_at(s, pos, x.len() as u64));
        assert(s.subrange(pos, pos + dx)[dy] == s[pos + dy]);
        assert(false);
    }
    assert(s.subrange(pos, pos + dx) =~= dec_digits(x.len()));
    assert(s.subrange(pos, pos + dy) =~= dec_digits(y.len()));
    lemma_dec_digits_injective(x.len(), y.len());
    assert forall|k: int| 0 <= k < x.len() implies x[k] == y[k] by {
        assert(s.subrange(pos + dx + 1, pos + dx + 1 + x.len() as int)[k] == x[k]);
        assert(s.subrange(pos + dy + 1, pos + dy + 1 + y.len() as int)[k] == y[k]);
    }
    assert(x =~= y);
}

/// Appends the minimal decimal representation of `n`.
pub fn push_decimal(out: &mut Vec<u8>, n: u64)
    ensures
        final(out)@ == old(out)@ + dec_digits(n as nat),
    decreases n,
{
    if n < 10 {
        out.push(48 + (n as u8));
        proof {
            assert(out@ =~= old(out)@ + dec_digits(n as nat));
        }
    } else {
        push_decimal(out, n / 10);
        out.push(48 + ((n % 10) as u8));
        proof {
            assert(out@ =~= old(out)@ + dec_digits(n as nat));
        }
    }
}

/// Appends a slice unchanged.
pub fn push_slice(out: &mut Vec<u8>, s: &[u8])
    ensures
        final(out)@ == old(out)@ + s@,
{
    let n = s.len();
    let mut i: usize = 0;
    while i < n
        invariant
            i <= n,
            n == s@.len(),
            out@ == old(out)@ + s@.take(i as int),
        decreases n - i,
    {
        out.push(s[i]);
        i = i + 1;
        proof {
            assert(out@ =~= old(out)@ + s@.take(i as int));
        }
    }
    proof {
        assert(s@.take(n as int) =~= s@);
    }
}

/// Appends the canonical encoding of integer `v`.
pub fn push_int(out: &mut Vec<u8>, v: i64)
    ensures
        final(out)@ == old(out)@ + enc_int(v as int),
{
    out.push(TOK_INT);
    if v >= 0 {
        push_decimal(out, v as u64);
    } else {
        out.push(TOK_MINUS);
        let m: u64 = ((-(v + 1)) as u64) + 1;
        proof {
            assert(m as nat == (-(v as int)) as nat);
        }
        push_decimal(out, m);
    }
    out.push(TOK_END);
    proof {
        assert(out@ =~= old(out)@ + enc_int(v as int));
    }
}

/// Appends the canonical encoding of byte string `s`.
pub fn push_bytes(out: &mut Vec<u8>, s: &[u8])
    ensures
        final(out)@ == old(out)@ + enc_bytes(s@),
{
    let n: u64 = s.len() as u64;
    push_decimal(out, n);
    out.push(TOK_COLON);
    push_slice(out, s);
    proof {
        assert(out@ =~= old(out)@ + enc_bytes(s@));
    }
}

/// Digit test.
pub fn digit(b: u8) -> (r: bool)
    ensures
        r == is_digit(b),
{
    48 <= b && b <= 57
}

/// Parses a minimal decimal number at `pos`. On success the consumed bytes
/// are exactly `dec_digits(n)` and the following byte, if any, is not a
/// digit; and whenever the input continues at `pos` with a whole minimal
/// decimal that fits, that number is returned.
pub fn parse_u64(input: &[u8], pos: usize) -> (r: Option<(u64, usize)>)
    requires
        pos <= input@.len(),
    ensures
        r matches Some((n, end)) ==> {
            &&& pos < end <= input@.len()
            &&& input@.subrange(pos as int, end as int) == dec_digits(n as nat)
            &&& (end == input@.len() || !is_digit(input@[end as int]))
        },
        forall|m: u64|
            number_at(input@, pos as int, m) ==> (r matches Some(v) && v.0 == m && v.1 == pos
                + dec_digits(m as nat).len()),
{
    let len = input.len();
    if pos == len {
        proof {
            assert forall|m: u64| !number_at(input@, pos as int, m) by {
                lemma_dec_digits_shape(m as nat);
            }
        }
        return None;
    }
    let first = input[pos];
    if !digit(first) {
        proof {
            assert forall|m: u64| !number_at(input@, pos as int, m) by {
                lemma_dec_digits_shape(m as nat);
                if number_at(input@, pos as int, m) {
                    assert(input@.subrange(
                        pos as int,
                        pos + dec_digits(m as nat).len() as int,
                    )[0] == input@[pos as int]);
                }
            }
        }
        return None;
    }
    if first == 48 {
        if pos + 1 < len && digit(input[pos + 1]) {
            proof {
                assert forall|m: u64| !number_at(input@, pos as int, m) by {
                    lemma_dec_digits_shape(m as nat);
                    if number_at(input@, pos as int, m) {
                        assert(input@.subrange(
                            pos as int,
                            pos + dec_digits(m as nat).len() as int,
                        )[0] == input@[pos as int]);
                        assert(m == 0);
                        assert(dec_digits(m as nat).len() == 1);
                    }
                }
            }
            return None;
        }
        proof {
            assert(input@.subrange(pos as int, pos + 1) =~= dec_digits(0));
            assert forall|m: u64| number_at(input@, pos as int, m) implies m == 0 by {
                lemma_dec_digits_shape(m as nat);
                assert(input@.subrange(pos as int, pos + dec_digits(m as nat).len() as int)[0]
                    == input@[pos as int]);
            }
        }
        return Some((0, pos + 1));
    }
    let mut acc: u64 = (first - 48) as u64;
    let mut i = pos + 1;
    proof {
        assert(input@.subrange(pos as int, pos + 1) =~= dec_digits(acc as nat));
    }
    while i < len && digit(input[i])
        invariant
            pos < i <= len,
            len == input@.len(),
            1 <= acc,
            input@.subrange(pos as int, i as int) == dec_digits(acc as nat),
            forall|j: int| pos <= j < i ==> is_digit(#[trigger] input@[j]),
        decreases len - i,
    {
        let d = input[i] - 48;
        proof {
            let a2 = acc * 10 + d;
            assert(a2 / 10 == acc && a2 % 10 == d as nat);
            assert(dec_digits(a2 as nat) == dec_digits(acc as nat) + seq![(48 + a2 as nat
                % 10) as u8]);
            assert((48 + a2 as nat % 10) as u8 == input@[i as int]);
            assert(input@.subrange(pos as int, i + 1) =~= input@.subrange(pos as int, i as int)
                + seq![input@[i as int]]);
        }
        if acc > (u64::MAX - (d as u64)) / 10 {
            proof {
                let a2 = acc * 10 + d;
                assert(a2 > u64::MAX);
                assert forall|m: u64| !number_at(input@, pos as int, m) by {
                    lemma_dec_digits_shape(m as nat);
                    if number_at(input@, pos as int, m) {
                        let ll = dec_digits(m as nat).len() as int;
                        if i > pos + ll {
                            assert(is_digit(input@[pos + ll]));
                            assert(false);
                        }
                        if i == pos + ll {
                            assert(is_digit(input@[pos + ll]));
                            assert(false);
                        }
                        assert(input@.subrange(pos as int, pos + ll) =~= input@.subrange(
                            pos as int,
                            i + 1,
                        ) + input@.subrange(i + 1, pos + ll));
                        lemma_dec_digits_prefix_le(
                            a2 as nat,
                            m as nat,
                            input@.subrange(i + 1, pos + ll),
                        );
                    }
                }
            }
            return None;
        }
        acc = acc * 10 + (d as u64);
        i = i + 1;
    }
    proof {
        assert forall|m: u64| number_at(input@, pos as int, m) implies (acc == m && i == pos
            + dec_digits(m as nat).len()) by {
            lemma_dec_digits_shape(m as nat);
            let ll = dec_digits(m as nat).len() as int;
            if i > pos + ll {
                assert(is_digit(input@[pos + ll]));
                assert(false);
            }
            if i < pos + ll {
                assert(input@.subrange(pos as int, pos + ll)[i - pos] == input@[i as int]);
                assert(is_digit(input@[i as int]));
                assert(false);
            }
            assert(input@.subrange(pos as int, i as int) =~= input@.subrange(pos as int, pos + ll));
            lemma_dec_digits_injective(acc as nat, m as nat);
        }
    }
    Some((acc, i))
}


/// `s` continues at `pos` with the whole canonical encoding of byte string
/// `bs`.
pub open spec fn bytes_at(s: Seq<u8>, pos: int, bs: Seq<u8>) -> bool {
    &&& pos + enc_bytes(bs).len() <= s.len()
    &&& s.subrange(pos, pos + enc_bytes(bs).len() as int) == enc_bytes(bs)
}

/// `s` continues at `pos` with the whole canonical encoding of integer `v`;
/// the one value whose magnitude does not fit the parser's range is left
/// out.
pub open spec fn int_at(s: Seq<u8>, pos: int, v: i64) -> bool {
    &&& v > i64::MIN
    &&& pos + enc_int(v as int).len() <= s.len()
    &&& s.subrange(pos, pos + enc_int(v as int).len() as int) == enc_int(v as int)
}


pub proof fn lemma_bytes_at_parts(s: Seq<u8>, pos: int, bs: Seq<u8>)
    requires
        0 <= pos,
        bytes_at(s, pos, bs),
        s.len() <= u64::MAX,
    ensures
        (bs.len() as u64) as nat == bs.len(),
        number_at(s, pos, bs.len() as u64),
        s[pos + dec_digits(bs.len()).len()] == TOK_COLON,
        s.subrange(
            pos + dec_digits(bs.len()).len() + 1,
            pos + dec_digits(bs.len()).len() + 1 + bs.len() as int,
        ) =~= bs,
{
    let dl = dec_digits(bs.len()).len() as int;
    let el = enc_bytes(bs).len() as int;
    assert(enc_bytes(bs) == dec_digits(bs.len()) + seq![TOK_COLON] + bs);
    assert(el == dl + 1 + bs.len());
    assert forall|k: int| 0 <= k < dl implies s.subrange(pos, pos + dl)[k] == dec_digits(
        bs.len(),
    )[k] by {
        assert(s.subrange(pos, pos + el)[k] == enc_bytes(bs)[k]);
        assert(s.subrange(pos, pos + el)[k] == s[pos + k]);
        assert(s.subrange(pos, pos + dl)[k] == s[pos + k]);
        assert(enc_bytes(bs)[k] == dec_digits(bs.len())[k]);
    }
    assert(s.subrange(pos, pos + dl) =~= dec_digits(bs.len()));
    assert(s.subrange(pos, pos + el)[dl] == enc_bytes(bs)[dl]);
    assert(enc_bytes(bs)[dl] == TOK_COLON);
    assert(s[pos + dl] == TOK_COLON);
    assert forall|k: int| 0 <= k < bs.len() implies s.subrange(
        pos + dl + 1,
        pos + dl + 1 + bs.len() as int,
    )[k] == bs[k] by {
        assert(s.subrange(pos, pos + el)[dl + 1 + k] == enc_bytes(bs)[dl + 1 + k]);
        assert(s.subrange(pos, pos + el)[dl + 1 + k] == s[pos + dl + 1 + k]);
        assert(s.subrange(pos + dl + 1, pos + dl + 1 + bs.len() as int)[k] == s[pos + dl + 1 + k]);
        assert(enc_bytes(bs)[dl + 1 + k] == bs[k]);
    }
}

/// Parses a canonical byte string (`len:bytes`) at `pos`. Whenever the
/// input continues at `pos` with a whole canonical byte string, that string
/// is returned.
#[verifier::rlimit(100)]
#[verifier::spinoff_prover]
pub fn parse_bytes(input: &[u8], pos: usize) -> (r: Option<(Vec<u8>, usize)>)
    requires
        pos <= input@.len(),
    ensures
        r matches Some((b, end)) ==> {
            &&& pos < end <= input@.len()
            &&& input@.subrange(pos as int, end as int) == enc_bytes(b@)
        },
        forall|bs: Seq<u8>|
            bytes_at(input@, pos as int, bs) ==> (r matches Some(v) && v.0@ == bs && v.1 == pos
                + enc_bytes(bs).len()),
{
    let len = input.len();
    let (n, p) = match parse_u64(input, pos) {
        None => {
            proof {
                assert forall|bs: Seq<u8>| !bytes_at(input@, pos as int, bs) by {
                    if bytes_at(input@, pos as int, bs) {
                        lemma_bytes_at_parts(input@, pos as int, bs);
                    }
                }
            }
            return None;
        },
        Some(v) => v,
    };
    if p == len || input[p] != TOK_COLON {
        proof {
            assert forall|bs: Seq<u8>| !bytes_at(input@, pos as int, bs) by {
                if bytes_at(input@, pos as int, bs) {
                    lemma_bytes_at_parts(input@, pos as int, bs);
                    assert(n == bs.len() && p == pos + dec_digits(bs.len()).len());
                }
            }
        }
        return None;
    }
    if n > (len - (p + 1)) as u64 {
        proof {
            assert forall|bs: Seq<u8>| !bytes_at(input@, pos as int, bs) by {
                if bytes_at(input@, pos as int, bs) {
                    lemma_bytes_at_parts(input@, pos as int, bs);
                    assert(n == bs.len() && p == pos + dec_digits(bs.len()).len());
                }
            }
        }
        return None;
    }
    let nn = n as usize;
    let start = p + 1;
    let mut out: Vec<u8> = Vec::new();
    let mut j: usize = 0;
    while j < nn
        invariant
            j <= nn,
            len == input@.len(),
            start + nn <= len,
            out@ == input@.subrange(start as int, start + j),
        decreases nn - j,
    {
        out.push(input[start + j]);
        j = j + 1;
        proof {
            assert(out@ =~= input@.subrange(start as int, start + j));
        }
    }
    let end = start + nn;
    proof {
        assert(input@.subrange(pos as int, end as int) =~= dec_digits(n as nat) + seq![TOK_COLON]
            + out@);
        assert(out@.len() == n as nat);
        assert forall|bs: Seq<u8>| bytes_at(input@, pos as int, bs) implies out@ =~= bs && end
            == pos + enc_bytes(bs).len() by {
            lemma_bytes_at_parts(input@, pos as int, bs);
            assert(n == bs.len() && p == pos + dec_digits(bs.len()).len());
        }
    }
    Some((out, end))
}


pub proof fn lemma_int_at_parts(s: Seq<u8>, pos: int, v: i64)
    requires
        0 <= pos,
        int_at(s, pos, v),
        s.len() <= u64::MAX,
    ensures
        s[pos] == TOK_INT,
        v >= 0 ==> {
            &&& s[pos + 1] != TOK_MINUS
            &&& (v as u64) as int == v
            &&& number_at(s, pos + 1, v as u64)
            &&& s[pos + 1 + dec_digits(v as nat).len()] == TOK_END
            &&& pos + 1 + dec_digits(v as nat).len() < s.len()
            &&& enc_int(v as int).len() == dec_digits(v as nat).len() + 2
        },
        v < 0 ==> {
            &&& s[pos + 1] == TOK_MINUS
            &&& pos + 1 < s.len()
            &&& 1 <= (-(v as int)) <= i64::MAX
            &&& ((-(v as int)) as u64) as int == -(v as int)
            &&& number_at(s, pos + 2, (-(v as int)) as u64)
            &&& s[pos + 2 + dec_digits((-(v as int)) as nat).len()] == TOK_END
            &&& pos + 2 + dec_digits((-(v as int)) as nat).len() < s.len()
            &&& enc_int(v as int).len() == dec_digits((-(v as int)) as nat).len() + 3
        },
{
    let el = enc_int(v as int).len() as int;
    if v >= 0 {
        let dl = dec_digits(v as nat).len() as int;
        assert(enc_int(v as int) == seq![TOK_INT] + dec_digits(v as nat) + seq![TOK_END]);
        assert(el == dl + 2);
        assert(s.subrange(pos, pos + el)[0] == enc_int(v as int)[0]);
        assert(s[pos] == TOK_INT);
        lemma_dec_digits_shape(v as nat);
        assert forall|k: int| 0 <= k < dl implies #[trigger] s.subrange(pos + 1, pos + 1 + dl)[k]
            == dec_digits(v as nat)[k] by {
            assert(s.subrange(pos, pos + el)[1 + k] == enc_int(v as int)[1 + k]);
            assert(s.subrange(pos, pos + el)[1 + k] == s[pos + 1 + k]);
            assert(s.subrange(pos + 1, pos + 1 + dl)[k] == s[pos + 1 + k]);
            assert(enc_int(v as int)[1 + k] == dec_digits(v as nat)[k]);
        }
        assert(s.subrange(pos + 1, pos + 1 + dl) =~= dec_digits(v as nat));
        assert(s.subrange(pos, pos + el)[dl + 1] == enc_int(v as int)[dl + 1]);
        assert(s[pos + 1 + dl] == TOK_END);
        assert(s.subrange(pos + 1, pos + 1 + dl)[0] == dec_digits(v as nat)[0]);
        assert(is_digit(s[pos + 1]));
    } else {
        let m = (-(v as int)) as nat;
        let dl = dec_digits(m).len() as int;
        assert(enc_int(v as int) == seq![TOK_INT, TOK_MINUS] + dec_digits(m) + seq![TOK_END]);
        assert(el == dl + 3);
        assert(s.subrange(pos, pos + el)[0] == enc_int(v as int)[0]);
        assert(s[pos] == TOK_INT);
        assert(s.subrange(pos, pos + el)[1] == enc_int(v as int)[1]);
        assert(s[pos + 1] == TOK_MINUS);
        lemma_dec_digits_shape(m);
        assert forall|k: int| 0 <= k < dl implies #[trigger] s.subrange(pos + 2, pos + 2 + dl)[k]
            == dec_digits(m)[k] by {
            assert(s.subrange(pos, pos + el)[2 + k] == enc_int(v as int)[2 + k]);
            assert(s.subrange(pos, pos + el)[2 + k] == s[pos + 2 + k]);
            assert(s.subrange(pos + 2, pos + 2 + dl)[k] == s[pos + 2 + k]);
            assert(enc_int(v as int)[2 + k] == dec_digits(m)[k]);
        }
        assert(s.subrange(pos + 2, pos + 2 + dl) =~= dec_digits(m));
        assert(s.subrange(pos, pos + el)[dl + 2] == enc_int(v as int)[dl + 2]);
        assert(s[pos + 2 + dl] == TOK_END);
    }
}

/// Parses a canonical integer (`i...e`) at `pos`. Whenever the input
/// continues at `pos` with a whole canonical integer in range, that integer
/// is returned.
#[verifier::rlimit(100)]
#[verifier::spinoff_prover]
pub fn parse_int(input: &[u8], pos: usize) -> (r: Option<(i64, usize)>)
    requires
        pos <= input@.len(),
    ensures
        r matches Some((v, end)) ==> {
            &&& pos < end <= input@.len()
            &&& input@.subrange(pos as int, end as int) == enc_int(v as int)
        },
        forall|v: i64|
            int_at(input@, pos as int, v) ==> (r matches Some(o) && o.0 == v && o.1 == pos
                + enc_int(v as int).len()),
{
    let len = input.len();
    if pos == len || input[pos] != TOK_INT {
        proof {
            assert forall|v: i64| !int_at(input@, pos as int, v) by {
                if int_at(input@, pos as int, v) {
                    lemma_int_at_parts(input@, pos as int, v);
                }
            }
        }
        return None;
    }
    if pos + 1 < len && input[pos + 1] == TOK_MINUS {
        let (n, p) = match parse_u64(input, pos + 2) {
            None => {
                proof {
                    assert forall|v: i64| !int_at(input@, pos as int, v) by {
                        if int_at(input@, pos as int, v) {
                            lemma_int_at_parts(input@, pos as int, v);
                        }
                    }
                }
                return None;
            },
            Some(v) => v,
        };
        if n == 0 || n > (i64::MAX as u64) {
            proof {
                assert forall|v: i64| !int_at(input@, pos as int, v) by {
                    if int_at(input@, pos as int, v) {
                        lemma_int_at_parts(input@, pos as int, v);
                    }
                }
            }
            return None;
        }
        if p == len || input[p] != TOK_END {
            proof {
                assert forall|v: i64| !int_at(input@, pos as int, v) by {
                    if int_at(input@, pos as int, v) {
                        lemma_int_at_parts(input@, pos as int, v);
                    }
                }
            }
            return None;
        }
        let v = -(n as i64);
        proof {
            assert(input@.subrange(pos as int, p + 1) =~= seq![TOK_INT, TOK_MINUS]
                + input@.subrange(pos + 2, p as int) + seq![TOK_END]);
            assert((-(v as int)) as nat == n as nat);
            assert forall|w: i64| int_at(input@, pos as int, w) implies (w == v && p + 1 == pos
                + enc_int(w as int).len()) by {
                lemma_int_at_parts(input@, pos as int, w);
            }
        }
        Some((v, p + 1))
    } else {
        let (n, p) = match parse_u64(input, pos + 1) {
            None => {
                proof {
                    assert forall|v: i64| !int_at(input@, pos as int, v) by {
                        if int_at(input@, pos as int, v) {
                            lemma_int_at_parts(input@, pos as int, v);
                        }
                    }
                }
                return None;
            },
            Some(v) => v,
        };
        if n > (i64::MAX as u64) {
            proof {
                assert forall|v: i64| !int_at(input@, pos as int, v) by {
                    if int_at(input@, pos as int, v) {
                        lemma_int_at_parts(input@, pos as int, v);
                    }
                }
            }
            return None;
        }
        if p == len || input[p] != TOK_END {
            proof {
                assert forall|v: i64| !int_at(input@, pos as int, v) by {
                    if int_at(input@, pos as int, v) {
                        lemma_int_at_parts(input@, pos as int, v);
                    }
                }
            }
            return None;
        }
        proof {
            assert(input@.subrange(pos as int, p + 1) =~= seq![TOK_INT] + input@.subrange(
                pos + 1,
                p as int,
            ) + seq![TOK_END]);
            assert forall|w: i64| int_at(input@, pos as int, w) implies (w == n as i64 && p + 1
                == pos + enc_int(w as int).len()) by {
                lemma_int_at_parts(input@, pos as int, w);
            }
        }
        Some((n as i64, p + 1))
    }
}

/// Skips one well-formed bencode value at `pos`, returning the position just
/// past it. Used to pass over dictionary entries the caller does not read.
pub fn skip_value(input: &[u8], pos: usize) -> (r: Option<usize>)
    requires
        pos <= input@.len(),
    ensures
        r matches Some(end) ==> pos < end <= input@.len(),
    decreases input@.len() - pos,
{
    let len = input.len();
    if pos == len {
        return None;
    }
    let c = input[pos];
    if c == TOK_INT {
        let mut i = pos + 1;
        while i < len && input[i] != TOK_END
            invariant
                pos < i <= len,
                len == input@.len(),
            decreases len - i,
        {
            i = i + 1;
        }
        if i == len {
            None
        } else {
            Some(i + 1)
        }
    } else if c == TOK_LIST || c == TOK_DICT {
        let mut i = pos + 1;
        loop
            invariant
                pos < i <= len,
                len == input@.len(),
            decreases len - i,
        {
            if i == len {
                return None;
            }
            if input[i] == TOK_END {
                return Some(i + 1);
            }
            i = match skip_value(input, i) {
                None => {
                    return None;
                },
                Some(e) => e,
            };
        }
    } else if digit(c) {
        match parse_u64(input, pos) {
            None => None,
            Some((n, p)) => {
                if p == len || input[p] != TOK_COLON {
                    return None;
                }
                if n > (len - (p + 1)) as u64 {
                    return None;
                }
                Some(p + 1 + (n as usize))
            },
        }
    } else {
        None
    }
}

/// Byte-for-byte equality of two slices.
pub fn bytes_eq(a: &[u8], b: &[u8]) -> (r: bool)
    ensures
        r == (a@ == b@),
{
    if a.len() != b.len() {
        proof {
            assert(a@.len() != b@.len());
        }
        return false;
    }
    let n = a.len();
    let mut i: usize = 0;
    while i < n
        invariant
            i <= n,
            n == a@.len() && n == b@.len(),
            forall|j: int| 0 <= j < i ==> a@[j] == b@[j],
        decreases n - i,
    {
        if a[i] != b[i] {
            return false;
        }
        i = i + 1;
    }
    proof {
        assert(a@ =~= b@);
    }
    true
}

/// A range of a sequence is the concatenation of its two halves.
pub proof fn lemma_subrange_split(s: Seq<u8>, a: int, b: int, c: int)
    requires
        0 <= a <= b <= c <= s.len(),
    ensures
        s.subrange(a, c) == s.subrange(a, b) + s.subrange(b, c),
{
    assert(s.subrange(a, c) =~= s.subrange(a, b) + s.subrange(b, c));
}

} // verus!
