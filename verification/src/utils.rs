//! Peer addresses and small byte-string utilities shared by the tracker
//! client and the descriptor code.
use vstd::prelude::*;
use vstd::seq_lib::lemma_concat_associative;

verus! {

/// A peer's host: a v4 address, a v6 address, or a DNS name still to be
/// resolved. Addresses are held as their raw big-endian bytes.
#[derive(Debug, Clone)]
pub enum IpAddr {
    V4([u8; 4]),
    V6([u8; 16]),
    DNS(Vec<u8>),
}

/// `s` with every occurrence of `pat` replaced by `rep`, scanning left to
/// right without rescanning replacements.
pub open spec fn replace_all(s: Seq<u8>, pat: Seq<u8>, rep: Seq<u8>) -> Seq<u8>
    recommends
        pat.len() >= 1,
    decreases s.len(),
{
    if s.len() == 0 {
        Seq::empty()
    } else if 1 <= pat.len() <= s.len() && s.take(pat.len() as int) == pat {
        rep + replace_all(s.skip(pat.len() as int), pat, rep)
    } else {
        seq![s[0]] + replace_all(s.drop_first(), pat, rep)
    }
}

/// `s` with the first occurrence of `pat`, if any, replaced by `rep`.
pub open spec fn replace_first(s: Seq<u8>, pat: Seq<u8>, rep: Seq<u8>) -> Seq<u8>
    recommends
        pat.len() >= 1,
    decreases s.len(),
{
    if s.len() == 0 {
        Seq::empty()
    } else if 1 <= pat.len() <= s.len() && s.take(pat.len() as int) == pat {
        rep + s.skip(pat.len() as int)
    } else {
        seq![s[0]] + replace_first(s.drop_first(), pat, rep)
    }
}

/// Whether `pat` occurs in `s` starting at `i`.
pub fn starts_with_at(s: &[u8], i: usize, pat: &[u8]) -> (r: bool)
    requires
        i <= s@.len(),
    ensures
        r == (i + pat@.len() <= s@.len() && s@.subrange(i as int, i + pat@.len()) == pat@),
{
    let m = pat.len();
    let slen = s.len();
    if m > slen - i {
        return false;
    }
    let mut k: usize = 0;
    while k < m
        invariant
            k <= m,
            slen == s@.len(),
            i + m <= slen,
            m == pat@.len(),
            forall|j: int| 0 <= j < k ==> s@[i + j] == pat@[j],
        decreases m - k,
    {
        if s[i + k] != pat[k] {
            proof {
                assert(s@.subrange(i as int, i + m)[k as int] == s@[i + k]);
            }
            return false;
        }
        k = k + 1;
    }
    proof {
        assert(s@.subrange(i as int, i + pat@.len()) =~= pat@);
    }
    true
}

/// Replaces every occurrence of `pat` in `s` by `rep`.
pub fn replace_all_bytes(s: &[u8], pat: &[u8], rep: &[u8]) -> (r: Vec<u8>)
    requires
        pat@.len() >= 1,
    ensures
        r@ == replace_all(s@, pat@, rep@),
{
    let mut out: Vec<u8> = Vec::new();
    let mut i: usize = 0;
    proof {
        assert(s@.skip(0) =~= s@);
        assert(out@ + replace_all(s@.skip(0), pat@, rep@) =~= replace_all(s@, pat@, rep@));
    }
    while i < s.len()
        invariant
            i <= s@.len(),
            pat@.len() >= 1,
            out@ + replace_all(s@.skip(i as int), pat@, rep@) == replace_all(s@, pat@, rep@),
        decreases s@.len() - i,
    {
        let ghost suf = s@.skip(i as int);
        if starts_with_at(s, i, pat) {
            proof {
                assert(suf.take(pat@.len() as int) =~= s@.subrange(i as int, i + pat@.len()));
                assert(suf.skip(pat@.len() as int) =~= s@.skip(i + pat@.len()));
                assert(replace_all(suf, pat@, rep@) == rep@ + replace_all(
                    s@.skip(i + pat@.len()),
                    pat@,
                    rep@,
                ));
                lemma_concat_associative(
                    out@,
                    rep@,
                    replace_all(s@.skip(i + pat@.len()), pat@, rep@),
                );
            }
            push_rep(&mut out, rep);
            i = i + pat.len();
        } else {
            proof {
                assert(suf.len() > 0 && suf[0] == s@[i as int]);
                assert(suf.drop_first() =~= s@.skip(i + 1));
                if 1 <= pat@.len() <= suf.len() {
                    assert(suf.take(pat@.len() as int) =~= s@.subrange(i as int, i + pat@.len()));
                }
                assert(replace_all(suf, pat@, rep@) == seq![suf[0]] + replace_all(
                    s@.skip(i + 1),
                    pat@,
                    rep@,
                ));
                lemma_concat_associative(
                    out@,
                    seq![s@[i as int]],
                    replace_all(s@.skip(i + 1), pat@, rep@),
                );
                assert(out@ + seq![s@[i as int]] =~= out@.push(s@[i as int]));
            }
            out.push(s[i]);
            i = i + 1;
        }
    }
    proof {
        assert(s@.skip(s@.len() as int) =~= Seq::<u8>::empty());
        assert(out@ + replace_all(Seq::<u8>::empty(), pat@, rep@) =~= out@);
    }
    out
}

/// Replaces the first occurrence of `pat` in `s`, if any, by `rep`.
pub fn replace_first_bytes(s: &[u8], pat: &[u8], rep: &[u8]) -> (r: Vec<u8>)
    requires
        pat@.len() >= 1,
    ensures
        r@ == replace_first(s@, pat@, rep@),
{
    let mut out: Vec<u8> = Vec::new();
    let mut i: usize = 0;
    let mut done = false;
    proof {
        assert(s@.skip(0) =~= s@);
        assert(out@ + replace_first(s@.skip(0), pat@, rep@) =~= replace_first(s@, pat@, rep@));
    }
    while i < s.len()
        invariant
            i <= s@.len(),
            pat@.len() >= 1,
            !done ==> out@ + replace_first(s@.skip(i as int), pat@, rep@) == replace_first(
                s@,
                pat@,
                rep@,
            ),
            done ==> out@ + s@.skip(i as int) == replace_first(s@, pat@, rep@),
        decreases s@.len() - i,
    {
        let ghost suf = s@.skip(i as int);
        if !done && starts_with_at(s, i, pat) {
            proof {
                assert(suf.take(pat@.len() as int) =~= s@.subrange(i as int, i + pat@.len()));
                assert(suf.skip(pat@.len() as int) =~= s@.skip(i + pat@.len()));
                assert(replace_first(suf, pat@, rep@) == rep@ + s@.skip(i + pat@.len()));
                lemma_concat_associative(out@, rep@, s@.skip(i + pat@.len()));
            }
            push_rep(&mut out, rep);
            i = i + pat.len();
            done = true;
        } else {
            proof {
                assert(suf.len() > 0 && suf[0] == s@[i as int]);
                assert(suf.drop_first() =~= s@.skip(i + 1));
                if !done {
                    if 1 <= pat@.len() <= suf.len() {
                        assert(suf.take(pat@.len() as int) =~= s@.subrange(
                            i as int,
                            i + pat@.len(),
                        ));
                    }
                    assert(replace_first(suf, pat@, rep@) == seq![suf[0]] + replace_first(
                        s@.skip(i + 1),
                        pat@,
                        rep@,
                    ));
                    lemma_concat_associative(
                        out@,
                        seq![s@[i as int]],
                        replace_first(s@.skip(i + 1), pat@, rep@),
                    );
                } else {
                    assert(suf =~= seq![suf[0]] + s@.skip(i + 1));
                    lemma_concat_associative(out@, seq![s@[i as int]], s@.skip(i + 1));
                }
                assert(out@ + seq![s@[i as int]] =~= out@.push(s@[i as int]));
            }
            out.push(s[i]);
            i = i + 1;
        }
    }
    proof {
        assert(s@.skip(s@.len() as int) =~= Seq::<u8>::empty());
        assert(replace_first(Seq::<u8>::empty(), pat@, rep@) == Seq::<u8>::empty());
        assert(out@ + Seq::<u8>::empty() =~= out@);
        assert(out@ + s@.skip(s@.len() as int) =~= out@);
    }
    out
}

/// Appends `rep` unchanged.
fn push_rep(out: &mut Vec<u8>, rep: &[u8])
    ensures
        final(out)@ == old(out)@ + rep@,
{
    let n = rep.len();
    let mut k: usize = 0;
    while k < n
        invariant
            k <= n,
            n == rep@.len(),
            out@ == old(out)@ + rep@.take(k as int),
        decreases n - k,
    {
        out.push(rep[k]);
        k = k + 1;
        proof {
            assert(out@ =~= old(out)@ + rep@.take(k as int));
        }
    }
    proof {
        assert(rep@.take(n as int) =~= rep@);
    }
}

/// A copy of `s[start..start+n]`.
pub fn copy_range(s: &[u8], start: usize, n: usize) -> (r: Vec<u8>)
    requires
        start + n <= s@.len(),
    ensures
        r@ == s@.subrange(start as int, start + n),
{
    let mut out: Vec<u8> = Vec::new();
    let slen = s.len();
    proof {
        assert(start + n <= slen);
    }
    let mut j: usize = 0;
    while j < n
        invariant
            j <= n,
            start + n <= s@.len(),
            start + n <= usize::MAX,
            out@ == s@.subrange(start as int, start + j),
        decreases n - j,
    {
        out.push(s[start + j]);
        j = j + 1;
        proof {
            assert(out@ =~= s@.subrange(start as int, start + j));
        }
    }
    out
}

/// Reassociates a four-part concatenation: prefixing a left-nested chain is
/// the same as the fully left-nested chain.
pub proof fn lemma_concat_for_tracker(a: Seq<u8>, b: Seq<u8>, c: Seq<u8>, d: Seq<u8>)
    ensures
        a + (((b + c) + d)) == (((a + b) + c) + d),
{
    lemma_concat_associative(a, b, c);
    lemma_concat_associative(a, b + c, d);
}

} // verus!
