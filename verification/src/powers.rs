//! Powers of two: the sides, steps and strides of the grids are all of this kind.

use vstd::prelude::*;
use vstd::arithmetic::power2::{
    pow2,
    lemma_pow2_adds,
    lemma_pow2_pos,
    lemma_pow2_strictly_increases,
    lemma_pow2_unfold,
    lemma2_to64,
};
use vstd::bits::lemma_usize_shl_is_mul;

verus! {

/// `2^small` divides into `2^large` for `small <= large`, and is no larger.
pub proof fn lemma_pow2_split(small: nat, large: nat)
    requires
        small <= large,
    ensures
        pow2(large) == pow2(small) * pow2((large - small) as nat),
        0 < pow2(small) <= pow2(large),
        0 < pow2((large - small) as nat) <= pow2(large),
{
    lemma_pow2_adds(small, (large - small) as nat);
    lemma_pow2_pos(small);
    lemma_pow2_pos((large - small) as nat);
    let a = pow2(small) as int;
    let b = pow2((large - small) as nat) as int;
    assert(a <= a * b && b <= a * b) by (nonlinear_arith)
        requires
            0 < a,
            0 < b,
    ;
}

/// `2^e`, for an exponent whose power fits the machine word.
pub fn two_pow(e: u32) -> (r: usize)
    requires
        pow2(e as nat) <= usize::MAX,
    ensures
        r == pow2(e as nat),
{
    proof {
        lemma2_to64();
        if e >= usize::BITS {
            if e > usize::BITS {
                lemma_pow2_strictly_increases(usize::BITS as nat, e as nat);
            }
            assert(false);
        }
        lemma_usize_shl_is_mul(1usize, e as usize);
    }
    1usize << (e as usize)
}

/// The step `2^e` with `e >= 1` is even, at least two, and its half is `2^(e - 1)`.
pub proof fn lemma_pow2_step(e: nat)
    requires
        e >= 1,
    ensures
        pow2(e) >= 2,
        pow2(e) % 2 == 0,
        pow2(e) / 2 == pow2((e - 1) as nat),
        pow2(e) == 2 * pow2((e - 1) as nat),
{
    lemma_pow2_unfold(e);
    lemma_pow2_pos((e - 1) as nat);
}

/// Different exponents give different powers of two.
pub proof fn lemma_pow2_injective(a: nat, b: nat)
    requires
        pow2(a) == pow2(b),
    ensures
        a == b,
{
    if a < b {
        lemma_pow2_strictly_increases(a, b);
    }
    if b < a {
        lemma_pow2_strictly_increases(b, a);
    }
}

} // verus!
