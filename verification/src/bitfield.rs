//! Fixed-length bit vector recording piece possession, bit-packed with the
//! high bit of each byte holding the lowest index of that byte's group.
use vstd::prelude::*;

verus! {

/// Whether bit `k` (0 = high bit) of `byte` is set.
pub open spec fn bit_at(byte: u8, k: int) -> bool {
    byte & (1u8 << ((7 - k) as u8)) != 0
}

/// Number of `true` entries in a sequence of booleans.
pub open spec fn count_true(s: Seq<bool>) -> nat
    decreases s.len(),
{
    if s.len() == 0 {
        0
    } else {
        count_true(s.drop_last()) + if s.last() { 1nat } else { 0nat }
    }
}

proof fn lemma_count_true_take_step(s: Seq<bool>, i: int)
    requires
        0 <= i < s.len(),
    ensures
        count_true(s.take(i + 1)) == count_true(s.take(i)) + if s[i] { 1nat } else { 0nat },
{
    assert(s.take(i + 1).drop_last() =~= s.take(i));
    assert(s.take(i + 1).last() == s[i]);
}

proof fn lemma_zero_byte_bits()
    by (bit_vector)
    ensures
        forall|k: u8| k < 8 ==> (0u8 & (#[trigger] (1u8 << ((7 - k) as u8))) == 0),
{
}

proof fn lemma_or_mask(b: u8, i: u8, j: u8)
    by (bit_vector)
    requires
        i < 8,
        j < 8,
    ensures
        (b | (1u8 << ((7 - i) as u8))) & (1u8 << ((7 - i) as u8)) != 0,
        i != j ==> ((b | (1u8 << ((7 - i) as u8))) & (1u8 << ((7 - j) as u8)) == b & (1u8 << (
        (7 - j) as u8))),
{
}

proof fn lemma_clear_mask(b: u8, i: u8, j: u8)
    by (bit_vector)
    requires
        i < 8,
        j < 8,
    ensures
        (b & !(1u8 << ((7 - i) as u8))) & (1u8 << ((7 - i) as u8)) == 0,
        i != j ==> ((b & !(1u8 << ((7 - i) as u8))) & (1u8 << ((7 - j) as u8)) == b & (1u8 << (
        (7 - j) as u8))),
{
}

/// Ordered sequence of booleans, one per piece, fixed length after
/// construction. The view is the sequence of bits.
pub struct BitField {
    bits: Vec<u8>,
    length: usize,
}

impl View for BitField {
    type V = Seq<bool>;

    closed spec fn view(&self) -> Seq<bool> {
        Seq::new(self.length as nat, |i: int| bit_at(self.bits@[i / 8], i % 8))
    }
}

impl Clone for BitField {
    fn clone(&self) -> (r: Self)
        ensures
            r@ == self@,
    {
        proof {
            use_type_invariant(self);
        }
        let r = BitField { bits: self.bits.clone(), length: self.length };
        proof {
            assert(r@ =~= self@);
        }
        r
    }
}

impl BitField {
    #[verifier::type_invariant]
    spec fn wf(self) -> bool {
        &&& self.bits@.len() == (self.length + 7) / 8
        &&& forall|b: int, k: int|
            0 <= b < self.bits@.len() && 0 <= k < 8 && self.length <= b * 8 + k ==> !(
            #[trigger] bit_at(self.bits@[b], k))
    }

    /// A bit field of `length` bits, all clear.
    pub fn new(length: usize) -> (r: Self)
        ensures
            r@ =~= Seq::new(length as nat, |i: int| false),
            r@.len() == length,
    {
        let nbytes = length / 8 + if length % 8 != 0 {
            1
        } else {
            0
        };
        let mut bits: Vec<u8> = Vec::new();
        while bits.len() < nbytes
            invariant
                bits@.len() <= nbytes,
                forall|k: int| 0 <= k < bits@.len() ==> bits@[k] == 0u8,
            decreases nbytes - bits.len(),
        {
            bits.push(0u8);
        }
        proof {
            lemma_zero_byte_bits();
            assert forall|b: int, k: int| 0 <= b < bits@.len() && 0 <= k < 8 implies !(
            #[trigger] bit_at(bits@[b], k)) by {
                let k8 = k as u8;
                assert(0u8 & (1u8 << ((7 - k8) as u8)) == 0);
                assert(((7 - k) as u8) == ((7 - k8) as u8));
            }
        }
        let r = BitField { bits, length };
        proof {
            assert forall|i: int| 0 <= i < length implies !(#[trigger] r@[i]) by {
                assert(0 <= i / 8 < r.bits@.len());
                assert(0 <= i % 8 < 8);
            }
            assert(r@ =~= Seq::new(length as nat, |i: int| false));
        }
        r
    }

    /// Number of bits in the field.
    pub fn len(&self) -> (r: usize)
        ensures
            r == self@.len(),
    {
        self.length
    }

    /// Sets bit `index`; every other bit is unchanged.
    pub fn set(&mut self, index: usize)
        requires
            index < old(self)@.len(),
        ensures
            final(self)@ == old(self)@.update(index as int, true),
    {
        proof {
            use_type_invariant(&*self);
        }
        let byte = index / 8;
        let bit = index % 8;
        let sh: u8 = (7 - bit) as u8;
        let mut bits = self.bits.clone();
        proof {
            assert forall|i: int| 0 <= i < self.bits@.len() implies bits@[i] == self.bits@[i] by {}
            assert(bits@ =~= self.bits@);
        }
        let old_b = bits[byte];
        let new_b = old_b | (1u8 << sh);
        bits[byte] = new_b;
        proof {
            let bi = (index % 8) as u8;
            assert(index == 8 * (index / 8) + index % 8);
            assert forall|k: int| 0 <= k < 8 implies #[trigger] bit_at(new_b, k) == (if k == bit {
                true
            } else {
                bit_at(old_b, k)
            }) by {
                let k8 = k as u8;
                lemma_or_mask(old_b, bi, k8);
                assert(((7 - k) as u8) == ((7 - k8) as u8));
            }
            assert forall|b: int, k: int|
                0 <= b < bits@.len() && 0 <= k < 8 && self.length <= b * 8 + k implies !(
            #[trigger] bit_at(bits@[b], k)) by {
                assert(!bit_at(self.bits@[b], k));
                if b == byte {
                    assert(k != bit);
                    assert(bits@[b] == new_b);
                } else {
                    assert(bits@[b] == self.bits@[b]);
                }
            }
        }
        let length = self.length;
        *self = BitField { bits, length };
        proof {
            assert forall|i: int| 0 <= i < self.length implies #[trigger] self@[i] == (if i
                == index {
                true
            } else {
                old(self)@[i]
            }) by {
                assert(i == 8 * (i / 8) + i % 8);
                assert(0 <= i / 8 < self.bits@.len());
            }
            assert(self@ =~= old(self)@.update(index as int, true));
        }
    }

    /// Clears bit `index`; every other bit is unchanged.
    pub fn clear(&mut self, index: usize)
        requires
            index < old(self)@.len(),
        ensures
            final(self)@ == old(self)@.update(index as int, false),
    {
        proof {
            use_type_invariant(&*self);
        }
        let byte = index / 8;
        let bit = index % 8;
        let sh: u8 = (7 - bit) as u8;
        let mut bits = self.bits.clone();
        proof {
            assert forall|i: int| 0 <= i < self.bits@.len() implies bits@[i] == self.bits@[i] by {}
            assert(bits@ =~= self.bits@);
        }
        let old_b = bits[byte];
        let new_b = old_b & !(1u8 << sh);
        bits[byte] = new_b;
        proof {
            let bi = (index % 8) as u8;
            assert(index == 8 * (index / 8) + index % 8);
            assert forall|k: int| 0 <= k < 8 implies #[trigger] bit_at(new_b, k) == (if k == bit {
                false
            } else {
                bit_at(old_b, k)
            }) by {
                let k8 = k as u8;
                lemma_clear_mask(old_b, bi, k8);
                assert(((7 - k) as u8) == ((7 - k8) as u8));
            }
            assert forall|b: int, k: int|
                0 <= b < bits@.len() && 0 <= k < 8 && self.length <= b * 8 + k implies !(
            #[trigger] bit_at(bits@[b], k)) by {
                assert(!bit_at(self.bits@[b], k));
                if b == byte {
                    assert(k != bit);
                    assert(bits@[b] == new_b);
                } else {
                    assert(bits@[b] == self.bits@[b]);
                }
            }
        }
        let length = self.length;
        *self = BitField { bits, length };
        proof {
            assert forall|i: int| 0 <= i < self.length implies #[trigger] self@[i] == (if i
                == index {
                false
            } else {
                old(self)@[i]
            }) by {
                assert(i == 8 * (i / 8) + i % 8);
                assert(0 <= i / 8 < self.bits@.len());
            }
            assert(self@ =~= old(self)@.update(index as int, false));
        }
    }

    /// Reads bit `index`.
    pub fn get(&self, index: usize) -> (r: bool)
        requires
            index < self@.len(),
        ensures
            r == self@[index as int],
    {
        proof {
            use_type_invariant(self);
        }
        let byte = index / 8;
        let bit = index % 8;
        let sh: u8 = (7 - bit) as u8;
        self.bits[byte] & (1u8 << sh) != 0
    }

    /// A cursor over the bits, lowest index first.
    pub fn iter(&self) -> (r: BitFieldIter<'_>)
        ensures
            r@ == self@,
    {
        let r = BitFieldIter { bitfield: self, index: 0 };
        proof {
            assert(r@ =~= self@);
        }
        r
    }

    /// Number of set bits.
    pub fn count_set(&self) -> (r: usize)
        ensures
            r == count_true(self@),
    {
        let n = self.len();
        let mut i: usize = 0;
        let mut acc: usize = 0;
        proof {
            assert(self@.take(0) =~= Seq::<bool>::empty());
        }
        while i < n
            invariant
                n == self@.len(),
                0 <= i <= n,
                acc == count_true(self@.take(i as int)),
                acc <= i,
            decreases n - i,
        {
            proof {
                lemma_count_true_take_step(self@, i as int);
            }
            if self.get(i) {
                acc = acc + 1;
            }
            i = i + 1;
        }
        proof {
            assert(self@.take(n as int) =~= self@);
        }
        acc
    }
}

/// A cursor over a bit field; its view is the sequence of bits not yet
/// returned.
pub struct BitFieldIter<'a> {
    bitfield: &'a BitField,
    index: usize,
}

impl<'a> View for BitFieldIter<'a> {
    type V = Seq<bool>;

    closed spec fn view(&self) -> Seq<bool> {
        self.bitfield@.skip(self.index as int)
    }
}

impl<'a> BitFieldIter<'a> {
    #[verifier::type_invariant]
    spec fn wf(self) -> bool {
        self.index <= self.bitfield@.len()
    }

    /// The next bit, or `None` once all bits have been returned.
    pub fn next(&mut self) -> (r: Option<bool>)
        ensures
            old(self)@.len() > 0 ==> r == Some(old(self)@[0]) && final(self)@ == old(
                self,
            )@.drop_first(),
            old(self)@.len() == 0 ==> r is None && final(self)@ == old(self)@,
    {
        proof {
            use_type_invariant(&*self);
        }
        if self.index < self.bitfield.len() {
            let b = self.bitfield.get(self.index);
            self.index = self.index + 1;
            proof {
                assert(final(self)@ =~= old(self)@.drop_first());
            }
            Some(b)
        } else {
            None
        }
    }
}


proof fn lemma_mask_spare(b: u8, r: u8, k: u8)
    by (bit_vector)
    requires
        r < 8,
        k < 8,
    ensures
        k >= r ==> (b & (0xffu8 << ((8 - r) as u8))) & (1u8 << ((7 - k) as u8)) == 0,
        k < r ==> ((b & (0xffu8 << ((8 - r) as u8))) & (1u8 << ((7 - k) as u8))) == (b & (1u8 << (
        (7 - k) as u8))),
{
}

impl BitField {
    /// A bit field unpacked from its wire form: one byte per eight bits,
    /// high bit first; spare bits of the last byte are ignored.
    pub fn from_bytes(bytes: &[u8], length: usize) -> (r: Self)
        requires
            bytes@.len() == (length + 7) / 8,
        ensures
            r@.len() == length,
            forall|i: int| 0 <= i < length ==> #[trigger] r@[i] == bit_at(bytes@[i / 8], i % 8),
    {
        let nbytes = bytes.len();
        let mut bits: Vec<u8> = Vec::new();
        let mut i: usize = 0;
        while i < nbytes
            invariant
                i <= nbytes,
                nbytes == bytes@.len(),
                bits@ == bytes@.take(i as int),
            decreases nbytes - i,
        {
            bits.push(bytes[i]);
            i = i + 1;
            proof {
                assert(bits@ =~= bytes@.take(i as int));
            }
        }
        proof {
            assert(bytes@.take(nbytes as int) =~= bytes@);
        }
        let rem = length % 8;
        if rem != 0 {
            let last = nbytes - 1;
            let sh: u8 = (8 - rem) as u8;
            let masked = bits[last] & (0xffu8 << sh);
            bits[last] = masked;
        }
        proof {
            let rm = (length % 8) as u8;
            assert forall|b: int, k: int|
                0 <= b < bits@.len() && 0 <= k < 8 && length <= b * 8 + k implies !(
            #[trigger] bit_at(bits@[b], k)) by {
                let k8 = k as u8;
                assert(((7 - k) as u8) == ((7 - k8) as u8));
                assert(b == bits@.len() - 1 && length % 8 != 0 && k8 >= rm);
                lemma_mask_spare(bytes@[b], rm, k8);
            }
        }
        let r = BitField { bits, length };
        proof {
            let rm = (length % 8) as u8;
            assert forall|i: int| 0 <= i < length implies #[trigger] r@[i] == bit_at(
                bytes@[i / 8],
                i % 8,
            ) by {
                let k8 = (i % 8) as u8;
                assert(((7 - i % 8) as u8) == ((7 - k8) as u8));
                if length % 8 != 0 && i / 8 == r.bits@.len() - 1 {
                    assert(k8 < rm);
                    lemma_mask_spare(bytes@[i / 8], rm, k8);
                }
            }
        }
        r
    }

    /// The bit field packed into its wire form: one byte per eight bits,
    /// high bit first, spare bits of the last byte zero.
    pub fn to_bytes(&self) -> (r: Vec<u8>)
        ensures
            r@.len() == (self@.len() + 7) / 8,
            forall|i: int|
                0 <= i < self@.len() ==> #[trigger] self@[i] == bit_at(r@[i / 8], i % 8),
            forall|b: int, k: int|
                0 <= b < r@.len() && 0 <= k < 8 && self@.len() <= b * 8 + k ==> !(
                #[trigger] bit_at(r@[b], k)),
    {
        proof {
            use_type_invariant(self);
        }
        let r = self.bits.clone();
        proof {
            assert(r@ =~= self.bits@);
        }
        r
    }
}

/// After a bit is set and then cleared again, it reads clear, every other
/// bit is as it was, and the length is unchanged.
pub proof fn lemma_set_then_clear(s: Seq<bool>, i: int)
    requires
        0 <= i < s.len(),
    ensures
        s.update(i, true).update(i, false).len() == s.len(),
        !s.update(i, true).update(i, false)[i],
        forall|j: int| 0 <= j < s.len() && j != i ==> s.update(i, true).update(i, false)[j] == s[j],
{
}

} // verus!
