//! Shard havelist used as the Reed-Solomon routing-update payload.
//!
//! The bitmap on-wire layout is the byte sequence returned by
//! [`BitMap::as_bytes`]: little-endian byte packing, lowest bit = lowest
//! index, byte 0 = bits 0..=7. The `n` (total bit count) is implied by
//! context (carried in the strategy state, not in the bytes).

use vstd::prelude::*;

verus! {

/// Shard havelist. Bit `i` set indicates the holder has shard `i`.
///
/// Its view is the sequence of its `n` bits.
#[derive(Debug, PartialEq, Eq)]
pub struct BitMap {
    bits: Vec<u64>,
    n: u32,
}

/// Errors returned by [`BitMap`] operations.
#[derive(Debug, Clone, Copy, PartialEq, Eq, Structural)]
pub enum BitMapError {
    /// Bit index is out of range for this bitmap's `n`.
    OutOfRange { idx: u32, n: u32 },
    /// Two bitmaps must agree on `n` to merge.
    SizeMismatch { lhs_n: u32, rhs_n: u32 },
    /// `from_bytes` was given a buffer whose length is inconsistent with `n`.
    InvalidByteLength { got: usize, expected: usize },
}

/// Bit `j` of a 64-bit limb.
pub open spec fn limb_bit(limb: u64, j: u64) -> bool {
    (limb >> j) & 1 == 1
}

/// Bit `j` of a byte.
pub open spec fn byte_bit(byte: u8, j: u8) -> bool {
    (byte >> j) & 1 == 1
}

/// Number of bytes that `n` bits occupy.
pub open spec fn byte_count(n: int) -> int {
    (n + 7) / 8
}

/// `bytes` is the packed form of `bits`: lowest bit first, unused high bits
/// of the last byte clear.
pub open spec fn packs(bytes: Seq<u8>, bits: Seq<bool>) -> bool {
    &&& bytes.len() == byte_count(bits.len() as int)
    &&& forall|b: int, j: int|
        0 <= b < bytes.len() && 0 <= j < 8 ==> #[trigger] byte_bit(bytes[b], j as u8) == (8 * b + j
            < bits.len() && bits[8 * b + j])
}

/// The packed form of `bits`.
pub open spec fn packed(bits: Seq<bool>) -> Seq<u8> {
    choose|bytes: Seq<u8>| packs(bytes, bits)
}

/// The `n` bits that `bytes` holds, lowest first.
pub open spec fn unpacked(bytes: Seq<u8>, n: nat) -> Seq<bool> {
    Seq::new(n, |i: int| byte_bit(bytes[i / 8], (i % 8) as u8))
}

/// All bits clear.
pub open spec fn cleared(n: nat) -> Seq<bool> {
    Seq::new(n, |i: int| false)
}

/// The union of two bit sequences of one length.
pub open spec fn union(a: Seq<bool>, b: Seq<bool>) -> Seq<bool> {
    Seq::new(a.len(), |i: int| a[i] || b[i])
}

/// How many of the bits are set.
pub open spec fn ones(bits: Seq<bool>) -> nat
    decreases bits.len(),
{
    if bits.len() == 0 {
        0
    } else {
        ones(bits.drop_last()) + (if bits.last() { 1nat } else { 0nat })
    }
}

/// No bit from `n` on is set.
spec fn clean(limbs: Seq<u64>, n: int) -> bool {
    forall|l: int, j: int|
        0 <= l < limbs.len() && 0 <= j < 64 && 64 * l + j >= n ==> !#[trigger] limb_bit(
            limbs[l],
            j as u64,
        )
}

impl View for BitMap {
    type V = Seq<bool>;

    closed spec fn view(&self) -> Seq<bool> {
        Seq::new(self.n as nat, |i: int| limb_bit(self.bits@[i / 64], (i % 64) as u64))
    }
}

impl Clone for BitMap {
    fn clone(&self) -> (r: Self)
        ensures
            r@ == self@,
    {
        proof {
            use_type_invariant(self);
        }
        let bits = self.bits.clone();
        assert(bits@ =~= self.bits@);
        BitMap { bits, n: self.n }
    }
}

impl BitMap {
    #[verifier::type_invariant]
    spec fn well_formed(self) -> bool {
        &&& self.bits@.len() == (self.n + 63) / 64
        &&& clean(self.bits@, self.n as int)
    }

    /// Construct a bitmap with all bits cleared, capacity for `n` bits.
    #[must_use]
    pub fn with_capacity(n: u32) -> (r: Self)
        ensures
            r@ == cleared(n as nat),
    {
        let limbs: usize = limbs_for(n);
        let mut bits: Vec<u64> = Vec::new();
        let mut i: usize = 0;
        while i < limbs
            invariant
                i <= limbs,
                bits@.len() == i,
                forall|j: int| 0 <= j < i ==> bits@[j] == 0,
            decreases limbs - i,
        {
            bits.push(0);
            i = i + 1;
        }
        proof {
            assert forall|l: int, j: int| 0 <= l < bits@.len() && 0 <= j < 64 implies !#[trigger] limb_bit(
                bits@[l],
                j as u64,
            ) by {
                let s = j as u64;
                assert((0u64 >> s) & 1 == 0) by (bit_vector);
            }
        }
        let r = BitMap { bits, n };
        proof {
            assert forall|i: int| 0 <= i < n implies r@[i] == false by {
                let j = (i % 64) as u64;
                assert((0u64 >> j) & 1 == 0) by (bit_vector);
            }
            assert(r@ =~= cleared(n as nat));
        }
        r
    }

    /// Total bit count.
    #[must_use]
    pub fn n(&self) -> (r: u32)
        ensures
            r == self@.len(),
    {
        self.n
    }

    /// Takes the limbs out and leaves an empty bitmap.
    fn take_limbs(&mut self) -> (r: Vec<u64>)
        ensures
            r@ == old(self).bits@,
            final(self).n == 0,
    {
        let mut all = BitMap { bits: Vec::new(), n: 0 };
        core::mem::swap(self, &mut all);
        all.bits
    }

    /// Set bit at `idx`.
    pub fn set(&mut self, idx: u32) -> (r: Result<(), BitMapError>)
        ensures
            idx < old(self)@.len() ==> r is Ok && final(self)@ == old(self)@.update(idx as int, true),
            idx >= old(self)@.len() ==> r == Err::<(), BitMapError>(
                BitMapError::OutOfRange { idx, n: old(self)@.len() as u32 },
            ) && final(self)@ == old(self)@,
    {
        proof {
            use_type_invariant(&*self);
        }
        if idx >= self.n {
            return Err(BitMapError::OutOfRange { idx, n: self.n });
        }
        let limb: usize = (idx / 64) as usize;
        let bit: u64 = (idx % 64) as u64;
        let ghost before = self.bits@;
        let word: u64 = self.bits[limb];
        proof {
            let after = before.update(limb as int, word | (1u64 << bit));
            assert forall|l: int, j: int|
                0 <= l < after.len() && 0 <= j < 64 && 64 * l + j >= self.n implies !#[trigger] limb_bit(
                after[l],
                j as u64,
            ) by {
                let s = j as u64;
                assert(!limb_bit(before[l], s));
                if l == limb {
                    assert(((word | (1u64 << bit)) >> s) & 1 == (if s == bit {
                        1u64
                    } else {
                        (word >> s) & 1
                    })) by (bit_vector)
                        requires
                            bit < 64,
                            s < 64,
                    ;
                }
            }
        }
        let n: u32 = self.n;
        let mut limbs = self.take_limbs();
        limbs[limb] = word | (1u64 << bit);
        *self = BitMap { bits: limbs, n };
        proof {
            let after = self.bits@;
            assert forall|i: int| 0 <= i < self.n implies self@[i] == old(self)@.update(idx as int, true)[i] by {
                let j = (i % 64) as u64;
                if i / 64 == limb {
                    assert(((word | (1u64 << bit)) >> j) & 1 == (if j == bit {
                        1u64
                    } else {
                        (word >> j) & 1
                    })) by (bit_vector)
                        requires
                            bit < 64,
                            j < 64,
                    ;
                    if j == bit {
                        assert(i == idx);
                    }
                } else {
                    assert(i != idx);
                    assert(after[i / 64] == before[i / 64]);
                }
            }
            assert(self@ =~= old(self)@.update(idx as int, true));
        }
        Ok(())
    }

    /// Get bit at `idx`. Returns `false` for out-of-range indices.
    #[must_use]
    pub fn get(&self, idx: u32) -> (r: bool)
        ensures
            r == (idx < self@.len() && self@[idx as int]),
    {
        proof {
            use_type_invariant(self);
        }
        if idx >= self.n {
            return false;
        }
        let limb: usize = (idx / 64) as usize;
        let bit: u64 = (idx % 64) as u64;
        (self.bits[limb] >> bit) & 1 == 1
    }

    /// Number of set bits.
    #[must_use]
    pub fn count_ones(&self) -> (r: u32)
        ensures
            r == ones(self@),
    {
        let mut count: u32 = 0;
        let mut i: u32 = 0;
        proof {
            assert(self@.take(0) =~= Seq::<bool>::empty());
        }
        while i < self.n
            invariant
                i <= self.n,
                self.n == self@.len(),
                count <= i,
                count == ones(self@.take(i as int)),
            decreases self.n - i,
        {
            proof {
                let next = self@.take(i + 1);
                assert(next.drop_last() =~= self@.take(i as int));
                assert(next.last() == self@[i as int]);
            }
            if self.get(i) {
                count = count + 1;
            }
            i = i + 1;
        }
        proof {
            assert(self@.take(self@.len() as int) =~= self@);
        }
        count
    }

    /// OR-merge `other` into `self`.
    pub fn or_merge(&mut self, other: &Self) -> (r: Result<(), BitMapError>)
        ensures
            old(self)@.len() == other@.len() ==> r is Ok && final(self)@ == union(old(self)@, other@),
            old(self)@.len() != other@.len() ==> r == Err::<(), BitMapError>(
                BitMapError::SizeMismatch { lhs_n: old(self)@.len() as u32, rhs_n: other@.len() as u32 },
            ) && final(self)@ == old(self)@,
    {
        proof {
            use_type_invariant(&*self);
            use_type_invariant(other);
        }
        if self.n != other.n {
            return Err(BitMapError::SizeMismatch { lhs_n: self.n, rhs_n: other.n });
        }
        let ghost before = self.bits@;
        let n: u32 = self.n;
        let mut limbs = self.take_limbs();
        let mut k: usize = 0;
        while k < limbs.len()
            invariant
                k <= limbs@.len(),
                limbs@.len() == before.len(),
                other.bits@.len() == before.len(),
                forall|l: int| 0 <= l < k ==> limbs@[l] == before[l] | other.bits@[l],
                forall|l: int| k <= l < before.len() ==> limbs@[l] == before[l],
            decreases limbs@.len() - k,
        {
            let word: u64 = limbs[k];
            limbs[k] = word | other.bits[k];
            k = k + 1;
        }
        proof {
            assert forall|l: int, j: int|
                0 <= l < limbs@.len() && 0 <= j < 64 && 64 * l + j >= n implies !#[trigger] limb_bit(
                limbs@[l],
                j as u64,
            ) by {
                let s = j as u64;
                let a = before[l];
                let b = other.bits@[l];
                assert(!limb_bit(a, s) && !limb_bit(b, s));
                assert(((a | b) >> s) & 1 == 1 <==> ((a >> s) & 1 == 1 || (b >> s) & 1 == 1))
                    by (bit_vector);
            }
        }
        *self = BitMap { bits: limbs, n };
        proof {
            use_type_invariant(&*self);
            assert forall|i: int| 0 <= i < self.n implies self@[i] == union(old(self)@, other@)[i] by {
                let j = (i % 64) as u64;
                let a = before[i / 64];
                let b = other.bits@[i / 64];
                assert(((a | b) >> j) & 1 == 1 <==> ((a >> j) & 1 == 1 || (b >> j) & 1 == 1)) by (bit_vector);
            }
            assert(self@ =~= union(old(self)@, other@));
        }
        Ok(())
    }

    /// Serialize to packed bytes (LSB-first, byte 0 = bits 0..=7).
    #[must_use]
    pub fn as_bytes(&self) -> (r: Vec<u8>)
        ensures
            packs(r@, self@),
            r@ == packed(self@),
    {
        let nbytes: usize = bytes_for(self.n);
        let mut out: Vec<u8> = Vec::new();
        let mut k: usize = 0;
        while k < nbytes
            invariant
                k <= nbytes,
                out@.len() == k,
                forall|b: int| 0 <= b < k ==> out@[b] == 0,
            decreases nbytes - k,
        {
            out.push(0);
            k = k + 1;
        }
        proof {
            assert forall|b: int, j: int| 0 <= b < out@.len() && 0 <= j < 8 implies !#[trigger] byte_bit(
                out@[b],
                j as u8,
            ) by {
                let s = j as u8;
                assert((0u8 >> s) & 1 == 0) by (bit_vector);
            }
        }
        let mut i: u32 = 0;
        while i < self.n
            invariant
                i <= self.n,
                self.n == self@.len(),
                out@.len() == byte_count(self.n as int),
                forall|b: int, j: int|
                    0 <= b < out@.len() && 0 <= j < 8 ==> #[trigger] byte_bit(out@[b], j as u8) == (8 * b + j
                        < i && self@[8 * b + j]),
            decreases self.n - i,
        {
            if self.get(i) {
                let at: usize = (i / 8) as usize;
                let bit: u8 = (i % 8) as u8;
                let ghost before = out@;
                let byte: u8 = out[at];
                out[at] = byte | (1u8 << bit);
                proof {
                    assert forall|b: int, j: int| 0 <= b < out@.len() && 0 <= j < 8 implies #[trigger] byte_bit(
                        out@[b],
                        j as u8,
                    ) == (8 * b + j < i + 1 && self@[8 * b + j]) by {
                        let s = j as u8;
                        assert(byte_bit(before[b], s) == (8 * b + j < i && self@[8 * b + j]));
                        if b == at {
                            assert(((byte | (1u8 << bit)) >> s) & 1 == (if s == bit {
                                1u8
                            } else {
                                (byte >> s) & 1
                            })) by (bit_vector)
                                requires
                                    bit < 8,
                                    s < 8,
                            ;
                            if s == bit {
                                assert(8 * b + j == i);
                            }
                        }
                    }
                }
            }
            i = i + 1;
        }
        proof {
            law_packing_unique(out@, packed(self@), self@);
        }
        out
    }

    /// Parse a packed byte sequence assuming the declared `n`.
    pub fn from_bytes(bytes: &[u8], n: u32) -> (r: Result<Self, BitMapError>)
        ensures
            match r {
                Ok(m) => bytes@.len() == byte_count(n as int) && m@ == unpacked(bytes@, n as nat),
                Err(e) => bytes@.len() != byte_count(n as int) && e == (BitMapError::InvalidByteLength {
                    got: bytes@.len() as usize,
                    expected: byte_count(n as int) as usize,
                }),
            },
    {
        let expected: usize = bytes_for(n);
        if bytes.len() != expected {
            return Err(BitMapError::InvalidByteLength { got: bytes.len(), expected });
        }
        let mut out = BitMap::with_capacity(n);
        let mut i: u32 = 0;
        while i < n
            invariant
                i <= n,
                bytes@.len() == byte_count(n as int),
                out@.len() == n,
                forall|k: int| 0 <= k < i ==> out@[k] == unpacked(bytes@, n as nat)[k],
                forall|k: int| i <= k < n ==> !out@[k],
            decreases n - i,
        {
            let at: usize = (i / 8) as usize;
            let bit: u8 = (i % 8) as u8;
            if (bytes[at] >> bit) & 1 == 1 {
                let _ = out.set(i);
            }
            i = i + 1;
        }
        assert(out@ =~= unpacked(bytes@, n as nat));
        Ok(out)
    }
}

fn limbs_for(n: u32) -> (r: usize)
    ensures
        r == (n + 63) / 64,
{
    let full: u32 = n / 64;
    if n % 64 == 0 {
        full as usize
    } else {
        (full + 1) as usize
    }
}

fn bytes_for(n: u32) -> (r: usize)
    ensures
        r == byte_count(n as int),
{
    let full: u32 = n / 8;
    if n % 8 == 0 {
        full as usize
    } else {
        (full + 1) as usize
    }
}

/// Packing then unpacking gives the bits back.
pub proof fn law_bytes_round_trip(bytes: Seq<u8>, bits: Seq<bool>)
    requires
        packs(bytes, bits),
    ensures
        unpacked(bytes, bits.len()) == bits,
{
    assert forall|i: int| 0 <= i < bits.len() implies unpacked(bytes, bits.len())[i] == bits[i] by {
        let b = i / 8;
        let j = i % 8;
        assert(byte_bit(bytes[b], j as u8) == (8 * b + j < bits.len() && bits[8 * b + j]));
    }
    assert(unpacked(bytes, bits.len()) =~= bits);
}

/// A bit sequence has one packed form only.
pub proof fn law_packing_unique(a: Seq<u8>, b: Seq<u8>, bits: Seq<bool>)
    requires
        packs(a, bits),
        packs(b, bits),
    ensures
        a == b,
{
    assert forall|k: int| 0 <= k < a.len() implies a[k] == b[k] by {
        let x = a[k];
        let y = b[k];
        assert(byte_bit(a[k], 0int as u8) == byte_bit(b[k], 0int as u8));
        assert(byte_bit(a[k], 1int as u8) == byte_bit(b[k], 1int as u8));
        assert(byte_bit(a[k], 2int as u8) == byte_bit(b[k], 2int as u8));
        assert(byte_bit(a[k], 3int as u8) == byte_bit(b[k], 3int as u8));
        assert(byte_bit(a[k], 4int as u8) == byte_bit(b[k], 4int as u8));
        assert(byte_bit(a[k], 5int as u8) == byte_bit(b[k], 5int as u8));
        assert(byte_bit(a[k], 6int as u8) == byte_bit(b[k], 6int as u8));
        assert(byte_bit(a[k], 7int as u8) == byte_bit(b[k], 7int as u8));
        assert(x == y) by (bit_vector)
            requires
                ((x >> 0u8) & 1 == 1) == ((y >> 0u8) & 1 == 1),
                ((x >> 1u8) & 1 == 1) == ((y >> 1u8) & 1 == 1),
                ((x >> 2u8) & 1 == 1) == ((y >> 2u8) & 1 == 1),
                ((x >> 3u8) & 1 == 1) == ((y >> 3u8) & 1 == 1),
                ((x >> 4u8) & 1 == 1) == ((y >> 4u8) & 1 == 1),
                ((x >> 5u8) & 1 == 1) == ((y >> 5u8) & 1 == 1),
                ((x >> 6u8) & 1 == 1) == ((y >> 6u8) & 1 == 1),
                ((x >> 7u8) & 1 == 1) == ((y >> 7u8) & 1 == 1),
        ;
    }
    assert(a =~= b);
}

/// Bits beyond the declared count do not affect what is parsed.
pub proof fn law_high_bits_masked(a: Seq<u8>, b: Seq<u8>, n: nat)
    requires
        a.len() == byte_count(n as int),
        b.len() == byte_count(n as int),
        forall|k: int, j: int|
            0 <= k && 0 <= j < 8 && 8 * k + j < n ==> #[trigger] byte_bit(a[k], j as u8) == byte_bit(
                b[k],
                j as u8,
            ),
    ensures
        unpacked(a, n) == unpacked(b, n),
{
    assert forall|i: int| 0 <= i < n implies unpacked(a, n)[i] == unpacked(b, n)[i] by {
        assert(byte_bit(a[i / 8], (i % 8) as u8) == byte_bit(b[i / 8], (i % 8) as u8));
    }
    assert(unpacked(a, n) =~= unpacked(b, n));
}

/// Merging is commutative, idempotent and never clears a bit.
pub proof fn law_merge_is_union(a: Seq<bool>, b: Seq<bool>)
    requires
        a.len() == b.len(),
    ensures
        union(a, b) == union(b, a),
        union(a, a) == a,
        union(union(a, b), b) == union(a, b),
        forall|i: int| 0 <= i < a.len() && a[i] ==> #[trigger] union(a, b)[i],
{
    assert(union(a, b) =~= union(b, a));
    assert(union(a, a) =~= a);
    assert(union(union(a, b), b) =~= union(a, b));
}

/// A bit of the union is set exactly when it is in one of the two.
pub proof fn law_union_holds_both(a: Seq<bool>, b: Seq<bool>, i: int)
    requires
        a.len() == b.len(),
        0 <= i < a.len(),
    ensures
        union(a, b).len() == a.len(),
        union(a, b)[i] <==> a[i] || b[i],
{
}

/// Setting a bit that is clear adds one to the count, clearing one that is set
/// takes one; there are none in a cleared map, and no more than bits.
pub proof fn law_bits_are_counted(bits: Seq<bool>, i: int, n: nat)
    requires
        0 <= i < bits.len(),
    ensures
        ones(cleared(n)) == 0,
        ones(bits) <= bits.len(),
        !bits[i] ==> ones(bits.update(i, true)) == ones(bits) + 1,
        bits[i] ==> ones(bits.update(i, false)) == ones(bits) - 1,
        (ones(bits) == bits.len()) <==> forall|j: int| 0 <= j < bits.len() ==> #[trigger] bits[j],
{
    lemma_none_set(n);
    lemma_all_set(bits);
    lemma_ones_update(bits, i);
}

proof fn lemma_none_set(n: nat)
    ensures
        ones(cleared(n)) == 0,
    decreases n,
{
    if n > 0 {
        lemma_none_set((n - 1) as nat);
        assert(cleared(n).drop_last() =~= cleared((n - 1) as nat));
    }
}

proof fn lemma_all_set(bits: Seq<bool>)
    ensures
        ones(bits) <= bits.len(),
        (ones(bits) == bits.len()) <==> forall|j: int| 0 <= j < bits.len() ==> #[trigger] bits[j],
    decreases bits.len(),
{
    if bits.len() > 0 {
        let head = bits.drop_last();
        lemma_all_set(head);
        if ones(bits) == bits.len() {
            assert forall|j: int| 0 <= j < bits.len() implies #[trigger] bits[j] by {
                if j < head.len() {
                    assert(head[j]);
                }
            }
        }
        if forall|j: int| 0 <= j < bits.len() ==> #[trigger] bits[j] {
            assert forall|j: int| 0 <= j < head.len() implies #[trigger] head[j] by {
                assert(bits[j]);
            }
            assert(bits[bits.len() - 1]);
        }
    }
}

proof fn lemma_ones_update(bits: Seq<bool>, i: int)
    requires
        0 <= i < bits.len(),
    ensures
        !bits[i] ==> ones(bits.update(i, true)) == ones(bits) + 1,
        bits[i] ==> ones(bits.update(i, false)) == ones(bits) - 1,
    decreases bits.len(),
{
    let v = !bits[i];
    let after = bits.update(i, v);
    if i == bits.len() - 1 {
        assert(after.drop_last() =~= bits.drop_last());
    } else {
        lemma_ones_update(bits.drop_last(), i);
        assert(after.drop_last() =~= bits.drop_last().update(i, v));
    }
}

} // verus!
