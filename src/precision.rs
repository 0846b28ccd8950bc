use vstd::arithmetic::power2::{lemma_pow2_unfold, pow2};
use vstd::prelude::*;

use crate::encoding::lemma_shift_is_pow2;

verus! {

/// The largest bit length a pattern can have.
pub const MAX_BIT_LENGTH: u32 = 31;

/// Why a solution space could not be built.
#[derive(Clone, Copy, Debug, PartialEq, Eq, Structural)]
pub enum ConfigError {
    /// The upper bound lies below the lower one.
    InvalidRange,
    /// The step size is not a positive fractional power of ten.
    InvalidStepSize,
    /// The bit length lies outside `[1, 31]`.
    BitLengthOutOfRange,
    /// The range is too wide for the bit length: a step would exceed one.
    Unrepresentable,
}

/// `l` bits give at least `steps + 1` distinct patterns, so `steps` steps
/// between the interval's ends can each be told apart.
pub open spec fn resolves(l: nat, steps: nat) -> bool {
    pow2(l) >= steps + 1
}

/// The fewest bits that resolve `steps` steps: `ceil(log2(steps + 1))`.
///
/// For a real ratio `x = (b - a) / d >= 0` this is `ceil(log2(x + 1))` when
/// `steps = ceil(x)`, since `2^l - 1 >= x` exactly when `2^l - 1 >= ceil(x)`.
pub fn bit_length(steps: u64) -> (l: u32)
    ensures
        resolves(l as nat, steps as nat),
        l == 0 || !resolves((l - 1) as nat, steps as nat),
        l <= 64,
{
    let mut l: u32 = 0;
    let mut p: u128 = 1;
    proof {
        vstd::arithmetic::power2::lemma2_to64();
    }
    while p <= steps as u128
        invariant
            l <= 64,
            p as nat == pow2(l as nat),
            l == 0 || !resolves((l - 1) as nat, steps as nat),
            l == 64 ==> p > steps as u128,
        decreases 64 - l,
    {
        proof {
            lemma_pow2_unfold((l + 1) as nat);
            vstd::arithmetic::power2::lemma2_to64_rest();
        }
        p = p * 2;
        l = l + 1;
    }
    l
}

/// The largest index of a space of `l`-bit patterns, `2^l - 1`, for `l` in
/// `[1, 31]`.
pub fn max_index(l: u32) -> (r: Result<u32, ConfigError>)
    ensures
        r is Ok <==> 1 <= l <= MAX_BIT_LENGTH,
        r is Ok ==> r->Ok_0 as nat == pow2(l as nat) - 1,
        r is Err ==> r == Err::<u32, ConfigError>(ConfigError::BitLengthOutOfRange),
{
    if l < 1 || l > MAX_BIT_LENGTH {
        return Err(ConfigError::BitLengthOutOfRange);
    }
    proof {
        lemma_shift_is_pow2(l);
        vstd::arithmetic::power2::lemma_pow2_pos(l as nat);
    }
    Ok((1u32 << l) - 1)
}

/// The bit length that `bit_length` derives always resolves the steps, and is
/// the least that does.
pub proof fn lemma_bit_length_least(l: nat, k: nat, steps: nat)
    requires
        resolves(l, steps),
        l == 0 || !resolves((l - 1) as nat, steps),
        resolves(k, steps),
    ensures
        l <= k,
        pow2(l) - 1 >= steps,
{
    if k < l - 1 {
        vstd::arithmetic::power2::lemma_pow2_strictly_increases(k, (l - 1) as nat);
    }
}

} // verus!
