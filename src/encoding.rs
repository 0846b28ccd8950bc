use vstd::arithmetic::power2::pow2;
use vstd::bits::lemma_u32_shl_is_mul;
use vstd::prelude::*;

verus! {

/// A raw bit pattern: an encoded candidate solution.
#[derive(Clone, Copy, Debug, PartialEq, Eq, Structural)]
pub struct Bin(pub u32);

/// An ordinal position in a solution space; numerically the same as a `Bin`.
#[derive(Clone, Copy, Debug, PartialEq, Eq, Structural)]
pub struct Int(pub u32);

/// `p` with bit `n` inverted.
pub open spec fn flipped(p: u32, n: u32) -> u32 {
    p ^ (1u32 << n)
}

/// `p` uses no bit at or above position `l`.
pub open spec fn fits(p: u32, l: u32) -> bool {
    (p as nat) < pow2(l as nat)
}

impl Bin {
    /// Reads the pattern as an index.
    pub fn to_int(&self) -> (r: Int)
        ensures
            r.0 == self.0,
    {
        Int(self.0)
    }

    /// Inverts bit `n` (counted from the least significant bit).
    pub fn flip_nth_bit(&self, n: u32) -> (r: Bin)
        requires
            n < 32,
        ensures
            r.0 == flipped(self.0, n),
    {
        Bin(self.0 ^ (1u32 << n))
    }
}

impl Int {
    /// Reads the index as a bit pattern.
    pub fn to_bin(&self) -> (r: Bin)
        ensures
            r.0 == self.0,
    {
        Bin(self.0)
    }
}

/// `1 << l` is `2^l` for every width a pattern can have.
pub proof fn lemma_shift_is_pow2(l: u32)
    requires
        l < 32,
    ensures
        (1u32 << l) as nat == pow2(l as nat),
{
    vstd::arithmetic::power2::lemma_pow2_strictly_increases(l as nat, 32);
    vstd::arithmetic::power2::lemma2_to64();
    lemma_u32_shl_is_mul(1, l);
}

/// Flipping the same bit twice gives back the pattern.
pub proof fn lemma_flip_self_inverse(p: u32, n: u32)
    requires
        n < 32,
    ensures
        flipped(flipped(p, n), n) == p,
{
    assert((p ^ (1u32 << n)) ^ (1u32 << n) == p) by (bit_vector)
        requires
            n < 32,
    ;
}

/// Flipping a bit below the width keeps a pattern within that width.
pub proof fn lemma_flip_fits(p: u32, n: u32, l: u32)
    requires
        n < l,
        l < 32,
        fits(p, l),
    ensures
        fits(flipped(p, n), l),
{
    lemma_shift_is_pow2(l);
    assert(p < (1u32 << l) && n < l && l < 32 ==> (p ^ (1u32 << n)) < (1u32 << l)) by (bit_vector);
}

} // verus!
