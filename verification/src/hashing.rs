//! The content-id digest and the encodings of digest bytes: lowercase hex
//! for display and full percent-encoding for tracker query strings.
use sha1::Digest;
use vstd::prelude::*;

verus! {

/// The 20-byte SHA-1 digest of a byte sequence; a function of the bytes
/// alone, named here and computed only by `sha1_digest`.
pub uninterp spec fn sha1_of(data: Seq<u8>) -> Seq<u8>;

/// Relies on sha1::Sha1 (RustCrypto): computes the SHA-1 digest of the
/// input, which its documentation states is 20 bytes and depends on the
/// input bytes alone.
#[verifier::external_body]
pub fn sha1_digest(data: &[u8]) -> (r: Vec<u8>)
    ensures
        r@ == sha1_of(data@),
        r@.len() == 20,
{
    let mut hasher = sha1::Sha1::new();
    hasher.update(data);
    hasher.finalize().as_slice().to_vec()
}

/// Lowercase hex digit for a nibble.
pub open spec fn hex_char(n: u8) -> char {
    if n < 10 {
        (48 + n) as char
    } else {
        (87 + n) as char
    }
}

/// Lowercase hex rendering: two digits per byte, high nibble first.
pub open spec fn hex_of(s: Seq<u8>) -> Seq<char> {
    Seq::new(
        2 * s.len(),
        |i: int|
            if i % 2 == 0 {
                hex_char(s[i / 2] >> 4u8)
            } else {
                hex_char(s[i / 2] & 15u8)
            },
    )
}

/// Relies on hex::encode: two lowercase hex digits per byte, high nibble
/// first, per its documentation and its digit table.
#[verifier::external_body]
pub fn hex_encode(data: &[u8]) -> (r: String)
    ensures
        r@ == hex_of(data@),
{
    hex::encode(data)
}

/// Uppercase hex digit byte for a nibble.
pub open spec fn pct_hex_digit(n: u8) -> u8 {
    if n < 10 {
        (48 + n) as u8
    } else {
        (55 + n) as u8
    }
}

/// Percent-encoding that escapes every byte as `%XX`, uppercase hex. The
/// digest is binary, so no byte is passed through unescaped.
pub open spec fn pct_encoded(s: Seq<u8>) -> Seq<u8> {
    Seq::new(
        3 * s.len(),
        |i: int|
            if i % 3 == 0 {
                37u8
            } else if i % 3 == 1 {
                pct_hex_digit(s[i / 3] >> 4u8)
            } else {
                pct_hex_digit(s[i / 3] & 15u8)
            },
    )
}

/// Every byte of a percent-encoded sequence is printable ASCII.
pub proof fn lemma_pct_encoded_ascii(s: Seq<u8>)
    ensures
        forall|i: int| 0 <= i < pct_encoded(s).len() ==> #[trigger] pct_encoded(s)[i] < 128,
{
    assert forall|i: int| 0 <= i < pct_encoded(s).len() implies #[trigger] pct_encoded(s)[i]
        < 128 by {
        let b = s[i / 3];
        assert(b >> 4u8 < 16 && b & 15u8 < 16) by (bit_vector);
    }
}

/// Uppercase hex digit for a nibble.
fn pct_digit(n: u8) -> (r: u8)
    requires
        n < 16,
    ensures
        r == pct_hex_digit(n),
{
    if n < 10 {
        48 + n
    } else {
        55 + n
    }
}

/// Percent-encodes every byte of the input as `%XX`, uppercase hex.
pub fn percent_encode_all(data: &[u8]) -> (r: Vec<u8>)
    ensures
        r@ == pct_encoded(data@),
{
    let n = data.len();
    let mut out: Vec<u8> = Vec::new();
    let mut i: usize = 0;
    while i < n
        invariant
            i <= n,
            n == data@.len(),
            out@.len() == 3 * i,
            forall|j: int| 0 <= j < out@.len() ==> out@[j] == pct_encoded(data@)[j],
        decreases n - i,
    {
        let b = data[i];
        proof {
            assert(b >> 4u8 < 16 && b & 15u8 < 16) by (bit_vector);
        }
        out.push(37);
        out.push(pct_digit(b >> 4));
        out.push(pct_digit(b & 15));
        i = i + 1;
        proof {
            assert forall|j: int| 0 <= j < out@.len() implies out@[j] == pct_encoded(data@)[j] by {
                if j >= 3 * (i - 1) {
                    assert(j / 3 == i - 1 && (j % 3 == 0 || j % 3 == 1 || j % 3 == 2));
                }
            }
        }
    }
    proof {
        assert(out@ =~= pct_encoded(data@));
    }
    out
}

/// Code points of ASCII bytes, one character per byte.
pub open spec fn ascii_chars_of(s: Seq<u8>) -> Seq<char> {
    Seq::new(s.len(), |i: int| s[i] as char)
}

/// Relies on std's String::from_utf8: ASCII bytes are valid UTF-8 and decode
/// to the same code points, so the call cannot fail on the inputs allowed here.
#[verifier::external_body]
pub fn ascii_to_string(data: Vec<u8>) -> (r: String)
    requires
        forall|i: int| 0 <= i < data@.len() ==> data@[i] < 128,
    ensures
        r@ == ascii_chars_of(data@),
{
    String::from_utf8(data).unwrap()
}

} // verus!
