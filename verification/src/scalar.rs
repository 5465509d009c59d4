//! Numbers of the two formats as values: `Scalar` is binary32, the type the
//! intersection test works in, and `Wide` is binary64, which it falls back on
//! near an edge.

use vstd::prelude::*;
use vstd::arithmetic::power2::pow2;
use crate::format::{
    Format, sign_of, abs_bits, is_nan, is_finite, value, lemma_mag_zero,
};
use crate::facts::{
    mirrored, lemma_sign_of_number, lemma_negated, lemma_product, lemma_quotient, lemma_sum,
    lemma_mirrored, lemma_difference_mirrored, lemma_converted_mirrored,
};
use crate::ops::{
    negated_bits, product_bits, sum_bits, difference_bits, quotient_bits, converted_bits, below,
    same_number, split, negated, product, sum, difference, quotient, converted, is_below,
    is_same_number,
};

verus! {

/// A binary32 number, held as its bit pattern. `==` compares patterns, so that
/// the two zeros differ and a NaN equals itself; `equals` compares numbers.
#[derive(Clone, Copy, PartialEq, Eq, Structural, Debug)]
pub struct Scalar {
    pub bits: u32,
}

/// A binary64 number, held as its bit pattern.
#[derive(Clone, Copy, PartialEq, Eq, Structural, Debug)]
pub struct Wide {
    pub bits: u64,
}

/// The binary32 value of a pattern that is known to fit.
pub open spec fn scalar_of(pattern: nat) -> Scalar {
    Scalar { bits: pattern as u32 }
}

/// The binary64 value of a pattern that is known to fit.
pub open spec fn wide_of(pattern: nat) -> Wide {
    Wide { bits: pattern as u64 }
}

impl Scalar {
    /// The bit pattern as a natural number.
    pub open spec fn pattern(self) -> nat {
        self.bits as nat
    }

    pub open spec fn is_nan(self) -> bool {
        is_nan(self.pattern(), Format::Single)
    }

    pub open spec fn is_finite(self) -> bool {
        is_finite(self.pattern(), Format::Single)
    }

    /// Whether the sign bit is set, which it may be on a zero or a NaN too.
    pub open spec fn sign(self) -> bool {
        sign_of(self.pattern(), Format::Single)
    }

    /// The number in units of two to the minus 149; an infinity counts as two
    /// to the 128th, and a NaN has no meaningful value.
    pub open spec fn value(self) -> int {
        value(self.pattern(), Format::Single)
    }

    /// A number below zero.
    pub open spec fn is_negative(self) -> bool {
        !self.is_nan() && self.value() < 0
    }

    /// A number above zero.
    pub open spec fn is_positive(self) -> bool {
        !self.is_nan() && self.value() > 0
    }

    /// Either zero.
    pub open spec fn is_zero(self) -> bool {
        !self.is_nan() && self.value() == 0
    }

    pub open spec fn below(self, other: Scalar) -> bool {
        below(self.pattern(), other.pattern(), Format::Single)
    }

    pub open spec fn same_number(self, other: Scalar) -> bool {
        same_number(self.pattern(), other.pattern(), Format::Single)
    }

    /// `self >= other` as numbers.
    pub open spec fn not_below(self, other: Scalar) -> bool {
        other.below(self) || other.same_number(self)
    }

    /// Whether the magnitude is below `epsilon`.
    pub open spec fn is_tiny(self) -> bool {
        self.magnitude().below(Scalar::epsilon())
    }

    pub open spec fn sum(self, other: Scalar) -> Scalar {
        scalar_of(sum_bits(self.pattern(), other.pattern(), Format::Single))
    }

    pub open spec fn difference(self, other: Scalar) -> Scalar {
        scalar_of(difference_bits(self.pattern(), other.pattern(), Format::Single))
    }

    pub open spec fn product(self, other: Scalar) -> Scalar {
        scalar_of(product_bits(self.pattern(), other.pattern(), Format::Single))
    }

    pub open spec fn quotient(self, other: Scalar) -> Scalar {
        scalar_of(quotient_bits(self.pattern(), other.pattern(), Format::Single))
    }

    pub open spec fn negation(self) -> Scalar {
        scalar_of(negated_bits(self.pattern(), Format::Single))
    }

    /// The same pattern with the sign bit clear.
    pub open spec fn magnitude(self) -> Scalar {
        scalar_of(abs_bits(self.pattern(), Format::Single))
    }

    /// The same pattern, its sign bit flipped where `flip` holds.
    pub open spec fn sign_flipped_if(self, flip: bool) -> Scalar {
        if flip {
            self.negation()
        } else {
            self
        }
    }

    /// The same number in binary64.
    pub open spec fn widened(self) -> Wide {
        wide_of(converted_bits(self.pattern(), Format::Single, Format::Double))
    }

    /// Positive zero.
    pub open spec fn zero() -> Scalar {
        Scalar { bits: 0 }
    }

    /// One.
    pub open spec fn one() -> Scalar {
        Scalar { bits: 0x3f80_0000 }
    }

    /// The gap between one and the next number above it, two to the minus 23.
    pub open spec fn epsilon() -> Scalar {
        Scalar { bits: 0x3400_0000 }
    }

    /// Two numbers of one magnitude on opposite sides of zero, or two zeros,
    /// or two NaNs of one magnitude pattern.
    pub open spec fn mirrors(self, other: Scalar) -> bool {
        mirrored(self.pattern(), other.pattern(), Format::Single)
    }

    /// Of two mirrored values one is negative where the other is positive,
    /// and both are next to zero or neither is.
    pub proof fn lemma_mirrors(self, other: Scalar)
        requires
            self.mirrors(other),
        ensures
            other.mirrors(self),
            self.is_nan() == other.is_nan(),
            self.is_zero() == other.is_zero(),
            self.is_negative() == other.is_positive(),
            self.is_positive() == other.is_negative(),
            self.is_tiny() == other.is_tiny(),
            self.magnitude() == other.magnitude(),
    {
        Format::Single.lemma_layout();
        lemma_mirrored(self.pattern(), other.pattern(), Format::Single);
    }

    /// Taking the terms of a difference the other way round mirrors it.
    pub proof fn lemma_difference_mirrors(self, other: Scalar)
        ensures
            self.difference(other).mirrors(other.difference(self)),
    {
        Format::Single.lemma_layout();
        lemma_difference_mirrored(self.pattern(), other.pattern(), Format::Single);
    }

    /// A finite number is, in units, under two to the 277th either way;
    /// negation changes the sign of the value; one is two to the 149th.
    pub proof fn lemma_value(self)
        ensures
            self.is_finite() ==> -pow2(277) < self.value() < pow2(277),
            !self.is_nan() ==> self.negation().value() == -self.value(),
            Scalar::one().value() == pow2(149),
            Scalar::one().is_finite() && !Scalar::one().sign(),
    {
        let single = Format::Single;
        single.lemma_layout();
        lemma_negated(self.pattern(), single);
        vstd::arithmetic::power2::lemma2_to64();
        vstd::arithmetic::power2::lemma_pow2_adds(23, 254);
        vstd::arithmetic::power2::lemma_pow2_adds(23, 126);
        assert(crate::format::mag(0x7f80_0000, single) == 0x80_0000 * pow2(254));
        assert(crate::format::mag(0x3f80_0000, single) == 0x80_0000 * pow2(126));
        if self.is_finite() {
            crate::format::lemma_mag_increases(
                abs_bits(self.pattern(), single),
                0x7f80_0000,
                single,
            );
        }
    }

    /// The sum of two finite numbers, where it is finite, lies within one
    /// part in two to the 24th of the exact sum, on the same side of zero.
    pub proof fn lemma_sum_error(self, other: Scalar)
        requires
            self.sum(other).is_finite(),
        ensures
            self.is_finite() && other.is_finite(),
            ({
                let s = self.value() + other.value();
                let r = self.sum(other).value();
                &&& s >= 0 ==> r >= 0 && -s <= 0x100_0000 * (r - s) <= s
                &&& s <= 0 ==> r <= 0 && s <= 0x100_0000 * (r - s) <= -s
            }),
    {
        self.lemma_sum(other);
        Format::Single.lemma_layout();
        crate::accuracy::lemma_sum_error(self.pattern(), other.pattern(), Format::Single);
    }

    /// The product of two numbers, where it is finite and the exact product
    /// is not negative, lies within one part in two to the 24th of the exact
    /// product, or within half a unit of it.
    pub proof fn lemma_product_error(self, other: Scalar)
        requires
            self.product(other).is_finite(),
            self.value() * other.value() >= 0,
        ensures
            self.is_finite() && other.is_finite(),
            ({
                let x = self.value() * other.value();
                let r = self.product(other).value();
                &&& r >= 0
                &&& -(x + 0x80_0000 * pow2(149)) <= 0x100_0000 * (r * pow2(149) - x) <= x
                    + 0x80_0000 * pow2(149)
            }),
    {
        self.lemma_product(other);
        Format::Single.lemma_layout();
        crate::accuracy::lemma_product_error(self.pattern(), other.pattern(), Format::Single);
    }

    /// The reciprocal of a positive finite number, where it is finite, times
    /// that number lies within one part in two to the 24th of one, or within
    /// half a unit times the number.
    pub proof fn lemma_reciprocal_error(self)
        requires
            self.is_finite(),
            self.is_positive(),
            Scalar::one().quotient(self).is_finite(),
        ensures
            ({
                let d = self.value();
                let r = Scalar::one().quotient(self).value();
                &&& r >= 0
                &&& -(pow2(298) + 0x80_0000 * d) <= 0x100_0000 * (r * d - pow2(298)) <= pow2(298)
                    + 0x80_0000 * d
            }),
    {
        Scalar::one().lemma_quotient(self);
        self.lemma_sign();
        self.lemma_value();
        Format::Single.lemma_layout();
        crate::accuracy::lemma_quotient_error(
            Scalar::one().pattern(),
            self.pattern(),
            Format::Single,
        );
        vstd::arithmetic::power2::lemma_pow2_adds(149, 149);
    }

    /// The pattern of a difference.
    pub proof fn lemma_difference(self, other: Scalar)
        ensures
            self.difference(other).pattern() == difference_bits(
                self.pattern(),
                other.pattern(),
                Format::Single,
            ),
    {
        Format::Single.lemma_layout();
        lemma_difference_mirrored(self.pattern(), other.pattern(), Format::Single);
    }

    /// The pattern of the widened number.
    pub proof fn lemma_widened(self)
        ensures
            self.widened().pattern() == converted_bits(
                self.pattern(),
                Format::Single,
                Format::Double,
            ),
    {
        Format::Single.lemma_layout();
        Format::Double.lemma_layout();
        crate::order::lemma_converted_sign(self.pattern(), Format::Single, Format::Double);
    }

    /// The quiet NaN that the operations give.
    pub open spec fn quiet_nan() -> Scalar {
        Scalar { bits: 0x7fc0_0000 }
    }

    /// How sign bit, zero and NaN place a number against zero.
    pub proof fn lemma_sign(self)
        ensures
            self.is_negative() <==> !self.is_nan() && self.sign() && !self.is_zero(),
            self.is_positive() <==> !self.is_nan() && !self.sign() && !self.is_zero(),
            self.is_zero() <==> self.bits == 0 || self.bits == 0x8000_0000,
            self.sign() <==> self.bits >= 0x8000_0000,
            self.is_nan() <==> self.magnitude().bits > 0x7f80_0000,
            self.is_tiny() ==> !self.is_nan(),
            self.is_zero() ==> self.is_tiny(),
    {
        Format::Single.lemma_layout();
        lemma_sign_of_number(self.pattern(), Format::Single);
        crate::format::lemma_mag_zero(abs_bits(self.pattern(), Format::Single), Format::Single);
        crate::format::lemma_mag_zero(0x3400_0000, Format::Single);
    }

    /// Negation flips the sign bit: it swaps the negative and the positive
    /// numbers and keeps zeros and NaNs what they are.
    pub proof fn lemma_negation(self)
        ensures
            self.negation().pattern() == negated_bits(self.pattern(), Format::Single),
            self.negation().sign() == !self.sign(),
            self.negation().magnitude() == self.magnitude(),
            self.negation().is_nan() == self.is_nan(),
            self.negation().is_zero() == self.is_zero(),
            self.negation().is_negative() == self.is_positive(),
            self.negation().is_positive() == self.is_negative(),
            self.negation().is_tiny() == self.is_tiny(),
            self.negation().negation() == self,
    {
        Format::Single.lemma_layout();
        lemma_negated(self.pattern(), Format::Single);
        lemma_negated(self.negation().pattern(), Format::Single);
        self.lemma_sign();
        self.negation().lemma_sign();
    }

    /// A sum of terms none of which is negative is not negative, and likewise
    /// for positive; a sum that is a NaN is the quiet NaN.
    pub proof fn lemma_sum(self, other: Scalar)
        ensures
            self.sum(other).pattern() == sum_bits(self.pattern(), other.pattern(), Format::Single),
            self.sum(other) == other.sum(self),
            self.sum(other).is_nan() ==> self.sum(other) == Scalar::quiet_nan(),
            self.is_nan() || other.is_nan() ==> self.sum(other).is_nan(),
            self.sum(other).is_finite() ==> self.is_finite() && other.is_finite(),
            !self.is_negative() && !other.is_negative() ==> !self.sum(other).is_negative(),
            !self.is_positive() && !other.is_positive() ==> !self.sum(other).is_positive(),
    {
        Format::Single.lemma_layout();
        lemma_sum(self.pattern(), other.pattern(), Format::Single);
    }

    /// A product is a NaN only of a NaN or of zero times infinity; otherwise
    /// its sign bit is the difference of the signs and it is zero where a
    /// factor is.
    pub proof fn lemma_product(self, other: Scalar)
        ensures
            self.product(other).pattern() == product_bits(
                self.pattern(),
                other.pattern(),
                Format::Single,
            ),
            self.product(other) == other.product(self),
            self.product(other).is_nan() ==> self.product(other) == Scalar::quiet_nan(),
            (self.is_nan() || other.is_nan()) ==> self.product(other).is_nan(),
            self.product(other).is_finite() ==> self.is_finite() && other.is_finite(),
            !self.product(other).is_nan() ==> self.product(other).sign() == (self.sign()
                != other.sign()),
            !self.product(other).is_nan() && (self.is_zero() || other.is_zero())
                ==> self.product(other).is_zero(),
    {
        Format::Single.lemma_layout();
        lemma_product(self.pattern(), other.pattern(), Format::Single);
        lemma_product(other.pattern(), self.pattern(), Format::Single);
        self.lemma_sign();
        other.lemma_sign();
        self.product(other).lemma_sign();
    }

    /// A quotient is a NaN of a NaN; otherwise its sign bit is the difference
    /// of the signs.
    pub proof fn lemma_quotient(self, other: Scalar)
        ensures
            self.quotient(other).pattern() == quotient_bits(
                self.pattern(),
                other.pattern(),
                Format::Single,
            ),
            self.quotient(other).is_nan() ==> self.quotient(other) == Scalar::quiet_nan(),
            (self.is_nan() || other.is_nan()) ==> self.quotient(other).is_nan(),
            !self.quotient(other).is_nan() ==> self.quotient(other).sign() == (self.sign()
                != other.sign()),
            !self.quotient(other).is_nan() && !other.is_nan() && !other.is_finite()
                ==> self.quotient(other).is_zero(),
    {
        Format::Single.lemma_layout();
        lemma_quotient(self.pattern(), other.pattern(), Format::Single);
        self.quotient(other).lemma_sign();
    }

    pub fn from_bits(bits: u32) -> (r: Scalar)
        ensures
            r.bits == bits,
    {
        Scalar { bits }
    }

    pub fn to_bits(self) -> (r: u32)
        ensures
            r == self.bits,
    {
        self.bits
    }

    pub fn make_zero() -> (r: Scalar)
        ensures
            r == Scalar::zero(),
    {
        Scalar { bits: 0 }
    }

    pub fn make_one() -> (r: Scalar)
        ensures
            r == Scalar::one(),
    {
        Scalar { bits: 0x3f80_0000 }
    }

    pub fn make_epsilon() -> (r: Scalar)
        ensures
            r == Scalar::epsilon(),
    {
        Scalar { bits: 0x3400_0000 }
    }

    pub fn sign_bit(self) -> (r: bool)
        ensures
            r == self.sign(),
    {
        self.bits >= 0x8000_0000
    }

    pub fn test_nan(self) -> (r: bool)
        ensures
            r == self.is_nan(),
    {
        let (_negative, m) = split(self.bits as u64, Format::Single);
        m > 0x7f80_0000
    }

    pub fn plus(self, other: Scalar) -> (r: Scalar)
        ensures
            r == self.sum(other),
    {
        Scalar { bits: sum(self.bits as u64, other.bits as u64, Format::Single) as u32 }
    }

    pub fn minus(self, other: Scalar) -> (r: Scalar)
        ensures
            r == self.difference(other),
    {
        Scalar { bits: difference(self.bits as u64, other.bits as u64, Format::Single) as u32 }
    }

    pub fn times(self, other: Scalar) -> (r: Scalar)
        ensures
            r == self.product(other),
    {
        Scalar { bits: product(self.bits as u64, other.bits as u64, Format::Single) as u32 }
    }

    pub fn over(self, other: Scalar) -> (r: Scalar)
        ensures
            r == self.quotient(other),
    {
        Scalar { bits: quotient(self.bits as u64, other.bits as u64, Format::Single) as u32 }
    }

    pub fn negate(self) -> (r: Scalar)
        ensures
            r == self.negation(),
    {
        Scalar { bits: negated(self.bits as u64, Format::Single) as u32 }
    }

    pub fn abs(self) -> (r: Scalar)
        ensures
            r == self.magnitude(),
    {
        let (_negative, m) = split(self.bits as u64, Format::Single);
        Scalar { bits: m as u32 }
    }

    pub fn flip_sign_if(self, flip: bool) -> (r: Scalar)
        ensures
            r == self.sign_flipped_if(flip),
    {
        if flip {
            self.negate()
        } else {
            self
        }
    }

    /// `self < other`.
    pub fn less(self, other: Scalar) -> (r: bool)
        ensures
            r == self.below(other),
    {
        is_below(self.bits as u64, other.bits as u64, Format::Single)
    }

    /// `self > other`.
    pub fn greater(self, other: Scalar) -> (r: bool)
        ensures
            r == other.below(self),
    {
        is_below(other.bits as u64, self.bits as u64, Format::Single)
    }

    /// `self >= other`.
    pub fn at_least(self, other: Scalar) -> (r: bool)
        ensures
            r == self.not_below(other),
    {
        is_below(other.bits as u64, self.bits as u64, Format::Single) || is_same_number(
            other.bits as u64,
            self.bits as u64,
            Format::Single,
        )
    }

    /// `self <= other`.
    pub fn at_most(self, other: Scalar) -> (r: bool)
        ensures
            r == other.not_below(self),
    {
        is_below(self.bits as u64, other.bits as u64, Format::Single) || is_same_number(
            self.bits as u64,
            other.bits as u64,
            Format::Single,
        )
    }

    /// `self == other` as numbers: a NaN equals nothing, the zeros are equal.
    pub fn equals(self, other: Scalar) -> (r: bool)
        ensures
            r == self.same_number(other),
    {
        is_same_number(self.bits as u64, other.bits as u64, Format::Single)
    }

    /// `self < 0`.
    pub fn test_negative(self) -> (r: bool)
        ensures
            r == self.is_negative(),
    {
        proof {
            Format::Single.lemma_layout();
            lemma_mag_zero(abs_bits(self.pattern(), Format::Single), Format::Single);
        }
        self.bits > 0x8000_0000 && self.bits <= 0xff80_0000
    }

    /// `self > 0`.
    pub fn test_positive(self) -> (r: bool)
        ensures
            r == self.is_positive(),
    {
        proof {
            Format::Single.lemma_layout();
            lemma_mag_zero(abs_bits(self.pattern(), Format::Single), Format::Single);
        }
        self.bits > 0 && self.bits <= 0x7f80_0000
    }

    /// Whether the magnitude is below `epsilon`.
    pub fn test_tiny(self) -> (r: bool)
        ensures
            r == self.is_tiny(),
    {
        self.abs().less(Scalar::make_epsilon())
    }

    /// `self == 0`.
    pub fn test_zero(self) -> (r: bool)
        ensures
            r == self.is_zero(),
    {
        proof {
            Format::Single.lemma_layout();
            lemma_mag_zero(abs_bits(self.pattern(), Format::Single), Format::Single);
        }
        self.bits == 0 || self.bits == 0x8000_0000
    }

    pub fn widen(self) -> (r: Wide)
        ensures
            r == self.widened(),
    {
        Wide { bits: converted(self.bits as u64, Format::Single, Format::Double) }
    }
}

impl Wide {
    /// The bit pattern as a natural number.
    pub open spec fn pattern(self) -> nat {
        self.bits as nat
    }

    pub open spec fn is_nan(self) -> bool {
        is_nan(self.pattern(), Format::Double)
    }

    /// The number in units of two to the minus 1074.
    pub open spec fn value(self) -> int {
        value(self.pattern(), Format::Double)
    }

    pub open spec fn sum(self, other: Wide) -> Wide {
        wide_of(sum_bits(self.pattern(), other.pattern(), Format::Double))
    }

    pub open spec fn difference(self, other: Wide) -> Wide {
        wide_of(difference_bits(self.pattern(), other.pattern(), Format::Double))
    }

    pub open spec fn product(self, other: Wide) -> Wide {
        wide_of(product_bits(self.pattern(), other.pattern(), Format::Double))
    }

    /// The nearest binary32 number.
    pub open spec fn narrowed(self) -> Scalar {
        scalar_of(converted_bits(self.pattern(), Format::Double, Format::Single))
    }

    /// Two numbers of one magnitude on opposite sides of zero, or two zeros,
    /// or two NaNs of one magnitude pattern.
    pub open spec fn mirrors(self, other: Wide) -> bool {
        mirrored(self.pattern(), other.pattern(), Format::Double)
    }

    /// The patterns of a product, of a difference and of the narrowed number.
    pub proof fn lemma_patterns(self, other: Wide)
        ensures
            self.product(other).pattern() == product_bits(
                self.pattern(),
                other.pattern(),
                Format::Double,
            ),
            self.difference(other).pattern() == difference_bits(
                self.pattern(),
                other.pattern(),
                Format::Double,
            ),
            self.narrowed().pattern() == converted_bits(
                self.pattern(),
                Format::Double,
                Format::Single,
            ),
    {
        Format::Single.lemma_layout();
        Format::Double.lemma_layout();
        lemma_product(self.pattern(), other.pattern(), Format::Double);
        lemma_difference_mirrored(self.pattern(), other.pattern(), Format::Double);
        crate::order::lemma_converted_sign(self.pattern(), Format::Double, Format::Single);
    }

    /// The product does not depend on the order of its factors.
    pub proof fn lemma_product_commutes(self, other: Wide)
        ensures
            self.product(other) == other.product(self),
    {
        Format::Double.lemma_layout();
        lemma_product(self.pattern(), other.pattern(), Format::Double);
    }

    /// Taking the terms of a difference the other way round mirrors it.
    pub proof fn lemma_difference_mirrors(self, other: Wide)
        ensures
            self.difference(other).mirrors(other.difference(self)),
    {
        Format::Double.lemma_layout();
        lemma_difference_mirrored(self.pattern(), other.pattern(), Format::Double);
    }

    /// Narrowing mirrored values gives mirrored values.
    pub proof fn lemma_narrowed_mirrors(self, other: Wide)
        requires
            self.mirrors(other),
        ensures
            self.narrowed().mirrors(other.narrowed()),
    {
        Format::Double.lemma_layout();
        Format::Single.lemma_layout();
        lemma_converted_mirrored(self.pattern(), other.pattern(), Format::Double, Format::Single);
    }

    pub fn from_bits(bits: u64) -> (r: Wide)
        ensures
            r.bits == bits,
    {
        Wide { bits }
    }

    pub fn to_bits(self) -> (r: u64)
        ensures
            r == self.bits,
    {
        self.bits
    }

    pub fn plus(self, other: Wide) -> (r: Wide)
        ensures
            r == self.sum(other),
    {
        Wide { bits: sum(self.bits, other.bits, Format::Double) }
    }

    pub fn minus(self, other: Wide) -> (r: Wide)
        ensures
            r == self.difference(other),
    {
        Wide { bits: difference(self.bits, other.bits, Format::Double) }
    }

    pub fn times(self, other: Wide) -> (r: Wide)
        ensures
            r == self.product(other),
    {
        Wide { bits: product(self.bits, other.bits, Format::Double) }
    }

    pub fn narrow(self) -> (r: Scalar)
        ensures
            r == self.narrowed(),
    {
        Scalar { bits: converted(self.bits, Format::Double, Format::Single) as u32 }
    }
}

} // verus!
