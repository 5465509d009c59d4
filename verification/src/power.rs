//! Powers of two: an executable power and the few facts about division by
//! powers of two that the rounding proofs lean on.

use vstd::prelude::*;
use vstd::arithmetic::power2::{
    pow2, lemma_pow2_pos, lemma_pow2_adds, lemma_pow2_strictly_increases, lemma2_to64,
    lemma2_to64_rest,
};
use vstd::bits::lemma_u64_shl_is_mul;

verus! {

/// `pow2` is monotone.
pub proof fn lemma_pow2_increases(a: nat, b: nat)
    requires
        a <= b,
    ensures
        pow2(a) <= pow2(b),
{
    if a < b {
        lemma_pow2_strictly_increases(a, b);
    }
}

/// The values of a few powers of two above the sixty-fourth.
pub proof fn lemma_pow2_values()
    ensures
        pow2(106) == 0x400_0000_0000_0000_0000_0000_0000,
        pow2(107) == 0x800_0000_0000_0000_0000_0000_0000,
        pow2(114) == 0x4_0000_0000_0000_0000_0000_0000_0000,
        pow2(120) == 0x100_0000_0000_0000_0000_0000_0000_0000,
{
    lemma2_to64();
    lemma2_to64_rest();
    lemma_pow2_adds(53, 53);
    lemma_pow2_adds(53, 54);
    lemma_pow2_adds(57, 57);
    lemma_pow2_adds(60, 60);
}

/// The number of binary digits of `g`.
pub open spec fn digits(g: nat) -> nat
    decreases g,
{
    if g == 0 {
        0
    } else {
        1 + digits(g / 2)
    }
}

/// A positive number lies between the powers of two that its number of
/// digits names.
pub proof fn lemma_digits(g: nat)
    requires
        g > 0,
    ensures
        digits(g) >= 1,
        pow2((digits(g) - 1) as nat) <= g < pow2(digits(g)),
    decreases g,
{
    lemma2_to64();
    if g == 1 {
        assert(digits(1) == 1 + digits(0));
    } else {
        lemma_digits(g / 2);
        let l = digits(g / 2);
        vstd::arithmetic::power2::lemma_pow2_unfold(l);
        vstd::arithmetic::power2::lemma_pow2_unfold(l + 1);
    }
}

/// Two to the power `k`.
pub(crate) fn pow2_u128(k: u32) -> (r: u128)
    requires
        k < 128,
    ensures
        r == pow2(k as nat),
        r > 0,
{
    proof {
        lemma2_to64();
        lemma_pow2_pos(k as nat);
    }
    if k < 64 {
        let s: u64 = k as u64;
        proof {
            lemma_pow2_strictly_increases(k as nat, 64);
            lemma_u64_shl_is_mul(1u64, s);
        }
        (1u64 << s) as u128
    } else {
        let s: u64 = (k - 64) as u64;
        proof {
            lemma_pow2_strictly_increases(s as nat, 64);
            lemma_u64_shl_is_mul(1u64, s);
            lemma_pow2_adds(s as nat, 64);
        }
        let low: u64 = 1u64 << s;
        (low as u128) * 0x1_0000_0000_0000_0000u128
    }
}

} // verus!
