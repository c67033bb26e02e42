use vstd::prelude::*;

verus! {

/// Number of one bits in `x`.
pub open spec fn bit_count(x: u64) -> nat
    decreases x,
{
    if x == 0 {
        0
    } else {
        bit_count((x / 2) as u64) + (x % 2) as nat
    }
}

/// A 64-bit perceptual fingerprint.
#[derive(Debug, Clone, Copy)]
pub struct DHash {
    pub raw: u64,
}

impl DHash {
    /// Hamming distance: the number of bit positions in which the two differ.
    pub open spec fn spec_distance(self, other: DHash) -> nat {
        bit_count(self.raw ^ other.raw)
    }

    pub fn distance_to(self, other: Self) -> (d: u32)
        ensures
            d == self.spec_distance(other),
            d <= 64,
    {
        let x0: u64 = self.raw ^ other.raw;
        let mut x: u64 = x0;
        let mut count: u32 = 0;
        proof {
            lemma_bit_count_bounded(x0);
        }
        while x != 0
            invariant
                count + bit_count(x) == bit_count(x0),
                bit_count(x0) <= 64,
            decreases x,
        {
            count = count + (x % 2) as u32;
            x = x / 2;
        }
        count
    }
}

proof fn lemma_bit_count_below_power(x: u64, k: nat)
    requires
        x < vstd::arithmetic::power2::pow2(k),
    ensures
        bit_count(x) <= k,
    decreases k,
{
    vstd::arithmetic::power2::lemma2_to64();
    if x != 0 {
        vstd::arithmetic::power2::lemma_pow2_unfold(k);
        lemma_bit_count_below_power((x / 2) as u64, (k - 1) as nat);
    }
}

proof fn lemma_bit_count_bounded(x: u64)
    ensures
        bit_count(x) <= 64,
{
    vstd::arithmetic::power2::lemma2_to64();
    lemma_bit_count_below_power(x, 64);
}

proof fn lemma_bit_count_zero(x: u64)
    ensures
        bit_count(x) == 0 <==> x == 0,
    decreases x,
{
    if x != 0 && x % 2 == 0 {
        lemma_bit_count_zero((x / 2) as u64);
    }
}

/// The Hamming distance is symmetric, zero exactly between equal fingerprints,
/// and never more than the width of a fingerprint.
pub proof fn lemma_distance_laws(a: DHash, b: DHash)
    ensures
        a.spec_distance(b) == b.spec_distance(a),
        a.spec_distance(a) == 0,
        a.spec_distance(b) <= 64,
        a.spec_distance(b) == 0 <==> a == b,
{
    let (x, y) = (a.raw, b.raw);
    assert(x ^ y == y ^ x) by (bit_vector);
    assert(x ^ x == 0) by (bit_vector);
    assert(x ^ y == 0 <==> x == y) by (bit_vector);
    lemma_bit_count_bounded(x ^ y);
    lemma_bit_count_zero(x ^ y);
    lemma_bit_count_zero(0);
}

} // verus!
