//! The two binary interchange formats and the reading of a bit pattern as a
//! number.
//!
//! A pattern without its sign bit is called a *magnitude pattern*. Its value is
//! counted in units of the smallest subnormal of the format, so every finite
//! value is an integer: `mag` gives that integer.

use vstd::prelude::*;
use vstd::arithmetic::power2::{pow2, lemma_pow2_pos, lemma_pow2_unfold, lemma2_to64, lemma2_to64_rest};
use vstd::arithmetic::mul::{lemma_mul_strict_inequality, lemma_mul_inequality};
use crate::power::lemma_pow2_increases;

verus! {

/// An IEEE 754 binary interchange format.
#[derive(Clone, Copy, PartialEq, Eq, Structural, Debug)]
pub enum Format {
    /// binary32: 8 exponent bits, 23 fraction bits.
    Single,
    /// binary64: 11 exponent bits, 52 fraction bits.
    Double,
}

impl Format {
    /// Number of fraction bits.
    pub open spec fn frac_bits(self) -> nat {
        match self {
            Format::Single => 23,
            Format::Double => 52,
        }
    }

    /// Weight of the hidden bit: two to the number of fraction bits.
    pub open spec fn radix(self) -> nat {
        match self {
            Format::Single => 0x80_0000,
            Format::Double => 0x10_0000_0000_0000,
        }
    }

    /// The largest value of the exponent field, kept for infinities and NaNs.
    pub open spec fn exp_max(self) -> nat {
        match self {
            Format::Single => 255,
            Format::Double => 2047,
        }
    }

    /// One unit, the smallest subnormal, is two to the minus `unit_exp`.
    pub open spec fn unit_exp(self) -> nat {
        match self {
            Format::Single => 149,
            Format::Double => 1074,
        }
    }

    /// The magnitude pattern of infinity.
    pub open spec fn inf(self) -> nat {
        self.exp_max() * self.radix()
    }

    /// The sign bit.
    pub open spec fn sign_bit(self) -> nat {
        (self.exp_max() + 1) * self.radix()
    }

    /// The magnitude pattern of the quiet NaN that operations produce.
    pub open spec fn quiet_nan(self) -> nat {
        self.inf() + self.radix() / 2
    }

    pub(crate) fn frac_bits_u32(self) -> (r: u32)
        ensures
            r == self.frac_bits(),
    {
        match self {
            Format::Single => 23,
            Format::Double => 52,
        }
    }

    pub(crate) fn radix_u64(self) -> (r: u64)
        ensures
            r == self.radix(),
    {
        match self {
            Format::Single => 0x80_0000,
            Format::Double => 0x10_0000_0000_0000,
        }
    }

    pub(crate) fn exp_max_u64(self) -> (r: u64)
        ensures
            r == self.exp_max(),
    {
        match self {
            Format::Single => 255,
            Format::Double => 2047,
        }
    }

    pub(crate) fn unit_exp_i64(self) -> (r: i64)
        ensures
            r == self.unit_exp(),
    {
        match self {
            Format::Single => 149,
            Format::Double => 1074,
        }
    }

    pub(crate) fn inf_u64(self) -> (r: u64)
        ensures
            r == self.inf(),
    {
        match self {
            Format::Single => 0x7f80_0000,
            Format::Double => 0x7ff0_0000_0000_0000,
        }
    }

    pub(crate) fn sign_bit_u64(self) -> (r: u64)
        ensures
            r == self.sign_bit(),
    {
        match self {
            Format::Single => 0x8000_0000,
            Format::Double => 0x8000_0000_0000_0000,
        }
    }

    pub(crate) fn quiet_nan_u64(self) -> (r: u64)
        ensures
            r == self.quiet_nan(),
    {
        match self {
            Format::Single => 0x7fc0_0000,
            Format::Double => 0x7ff8_0000_0000_0000,
        }
    }

    /// The patterns of infinity, of the quiet NaN and of the sign bit.
    pub proof fn lemma_layout(self)
        ensures
            self == Format::Single ==> self.inf() == 0x7f80_0000 && self.quiet_nan() == 0x7fc0_0000
                && self.sign_bit() == 0x8000_0000,
            self == Format::Double ==> self.inf() == 0x7ff0_0000_0000_0000 && self.quiet_nan()
                == 0x7ff8_0000_0000_0000 && self.sign_bit() == 0x8000_0000_0000_0000,
            self.inf() < self.quiet_nan() < self.sign_bit(),
    {
    }

    /// `radix` is a power of two.
    pub proof fn lemma_radix(self)
        ensures
            self.radix() == pow2(self.frac_bits()),
            2 * self.radix() == pow2(self.frac_bits() + 1),
    {
        lemma2_to64();
        lemma2_to64_rest();
    }
}

/// Whether the sign bit of a pattern is set.
pub open spec fn sign_of(bits: nat, fmt: Format) -> bool {
    bits >= fmt.sign_bit()
}

/// The pattern without its sign bit.
pub open spec fn abs_bits(bits: nat, fmt: Format) -> nat {
    if bits >= fmt.sign_bit() {
        (bits - fmt.sign_bit()) as nat
    } else {
        bits
    }
}

/// The magnitude pattern `m` under the given sign.
pub open spec fn with_sign(negative: bool, m: nat, fmt: Format) -> nat {
    if negative {
        m + fmt.sign_bit()
    } else {
        m
    }
}

/// A pattern of the format: nothing above the sign bit.
pub open spec fn is_pattern(bits: nat, fmt: Format) -> bool {
    bits < 2 * fmt.sign_bit()
}

pub open spec fn is_nan(bits: nat, fmt: Format) -> bool {
    abs_bits(bits, fmt) > fmt.inf()
}

pub open spec fn is_infinite(bits: nat, fmt: Format) -> bool {
    abs_bits(bits, fmt) == fmt.inf()
}

pub open spec fn is_finite(bits: nat, fmt: Format) -> bool {
    abs_bits(bits, fmt) < fmt.inf()
}

pub open spec fn is_zero(bits: nat, fmt: Format) -> bool {
    abs_bits(bits, fmt) == 0
}

/// The significand of a magnitude pattern, hidden bit included.
pub open spec fn significand(m: nat, fmt: Format) -> nat {
    if m < fmt.radix() {
        m
    } else {
        fmt.radix() + m % fmt.radix()
    }
}

/// The power of two, in units, that the last place of the significand weighs.
pub open spec fn scale(m: nat, fmt: Format) -> nat {
    if m < 2 * fmt.radix() {
        0
    } else {
        (m / fmt.radix() - 1) as nat
    }
}

/// The number, in units, that a magnitude pattern stands for. On the pattern
/// of infinity it gives the power of two that follows the largest finite
/// number, which is where rounding overflows.
pub open spec fn mag(m: nat, fmt: Format) -> nat {
    significand(m, fmt) * pow2(scale(m, fmt))
}

/// The signed number, in units, of a pattern that is no NaN.
pub open spec fn value(bits: nat, fmt: Format) -> int {
    if sign_of(bits, fmt) {
        -(mag(abs_bits(bits, fmt), fmt) as int)
    } else {
        mag(abs_bits(bits, fmt), fmt) as int
    }
}

/// Below twice the radix a magnitude pattern is its own value.
pub proof fn lemma_mag_small(m: nat, fmt: Format)
    requires
        m < 2 * fmt.radix(),
    ensures
        mag(m, fmt) == m,
{
    lemma2_to64();
    assert(scale(m, fmt) == 0);
    assert(significand(m, fmt) == m) by {
        match fmt {
            Format::Single => {},
            Format::Double => {},
        }
    }
    assert(m * 1 == m);
}

/// Bounds of a value inside its binade.
pub proof fn lemma_mag_bounds(m: nat, fmt: Format)
    ensures
        m >= fmt.radix() ==> fmt.radix() * pow2(scale(m, fmt)) <= mag(m, fmt),
        mag(m, fmt) < 2 * fmt.radix() * pow2(scale(m, fmt)),
        0 < pow2(scale(m, fmt)),
{
    let s = pow2(scale(m, fmt));
    let g = significand(m, fmt);
    lemma_pow2_pos(scale(m, fmt));
    assert(g < 2 * fmt.radix());
    lemma_mul_strict_inequality(g as int, 2 * fmt.radix() as int, s as int);
    if m >= fmt.radix() {
        assert(g >= fmt.radix());
        lemma_mul_inequality(fmt.radix() as int, g as int, s as int);
    }
}

/// Larger magnitude patterns stand for larger numbers.
pub proof fn lemma_mag_increases(a: nat, b: nat, fmt: Format)
    requires
        a < b,
    ensures
        mag(a, fmt) < mag(b, fmt),
{
    let p = fmt.radix();
    let sa = scale(a, fmt);
    let sb = scale(b, fmt);
    lemma_mag_bounds(a, fmt);
    lemma_mag_bounds(b, fmt);
    if b < 2 * p {
        lemma_mag_small(a, fmt);
        lemma_mag_small(b, fmt);
    } else if a / p == b / p {
        assert(sa == sb);
        assert(significand(a, fmt) < significand(b, fmt));
        lemma_mul_strict_inequality(
            significand(a, fmt) as int,
            significand(b, fmt) as int,
            pow2(sa) as int,
        );
    } else {
        assert(a / p < b / p);
        assert(sa + 1 <= sb || a < p);
        if a < p {
            lemma_mag_small(a, fmt);
            lemma_pow2_pos(sb);
            lemma_mul_inequality(1, pow2(sb) as int, p as int);
        } else {
            // mag(a) < 2p * 2^sa = p * 2^(sa+1) <= p * 2^sb <= mag(b)
            lemma_pow2_unfold(sa + 1);
            lemma_pow2_increases(sa + 1, sb);
            lemma_mul_inequality(pow2(sa + 1) as int, pow2(sb) as int, p as int);
            assert(2 * p * pow2(sa) == p * pow2(sa + 1)) by (nonlinear_arith)
                requires
                    pow2(sa + 1) == 2 * pow2(sa),
            ;
        }
    }
}

/// Only the zero pattern stands for zero.
pub proof fn lemma_mag_zero(m: nat, fmt: Format)
    ensures
        mag(m, fmt) == 0 <==> m == 0,
{
    lemma_mag_small(0, fmt);
    if m > 0 {
        lemma_mag_increases(0, m, fmt);
    }
}

} // verus!
