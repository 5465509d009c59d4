//! What the operations keep of their operands: the sign of a product and of a
//! quotient, the sign of a sum of terms of one sign, and the symmetry of a
//! difference.

use vstd::prelude::*;
use vstd::arithmetic::power2::{pow2, lemma_pow2_pos};
use crate::format::{
    Format, sign_of, abs_bits, with_sign, is_pattern, is_nan, is_infinite, is_finite, is_zero, mag,
    value, lemma_mag_zero,
};
use crate::rounding::{round_mag, lemma_round_mag_zero};
use crate::ops::{
    negated_bits, product_bits, sum_bits, difference_bits, quotient_bits, converted_bits,
};

verus! {

/// A number below zero.
pub open spec fn is_negative(bits: nat, fmt: Format) -> bool {
    !is_nan(bits, fmt) && value(bits, fmt) < 0
}

/// A number above zero.
pub open spec fn is_positive(bits: nat, fmt: Format) -> bool {
    !is_nan(bits, fmt) && value(bits, fmt) > 0
}

/// A sign and a magnitude pattern make a pattern, and can be read back.
pub proof fn lemma_with_sign(negative: bool, m: nat, fmt: Format)
    requires
        m <= fmt.quiet_nan(),
    ensures
        is_pattern(with_sign(negative, m, fmt), fmt),
        sign_of(with_sign(negative, m, fmt), fmt) == negative,
        abs_bits(with_sign(negative, m, fmt), fmt) == m,
{
    fmt.lemma_layout();
}

/// Sign and magnitude of a number against zero.
pub proof fn lemma_sign_of_number(bits: nat, fmt: Format)
    requires
        is_pattern(bits, fmt),
    ensures
        is_negative(bits, fmt) <==> !is_nan(bits, fmt) && sign_of(bits, fmt) && !is_zero(bits, fmt),
        is_positive(bits, fmt) <==> !is_nan(bits, fmt) && !sign_of(bits, fmt) && !is_zero(
            bits,
            fmt,
        ),
        !is_nan(bits, fmt) ==> (value(bits, fmt) == 0 <==> is_zero(bits, fmt)),
{
    lemma_mag_zero(abs_bits(bits, fmt), fmt);
}

/// Negation flips the sign bit and nothing else.
pub proof fn lemma_negated(a: nat, fmt: Format)
    requires
        is_pattern(a, fmt),
    ensures
        is_pattern(negated_bits(a, fmt), fmt),
        sign_of(negated_bits(a, fmt), fmt) == !sign_of(a, fmt),
        abs_bits(negated_bits(a, fmt), fmt) == abs_bits(a, fmt),
        negated_bits(negated_bits(a, fmt), fmt) == a,
        !is_nan(a, fmt) ==> value(negated_bits(a, fmt), fmt) == -value(a, fmt),
{
    fmt.lemma_layout();
}

/// A product is a NaN only of a NaN or of zero times infinity; otherwise its
/// sign bit is the difference of the signs, and it is zero where a factor is.
pub proof fn lemma_product(a: nat, b: nat, fmt: Format)
    requires
        is_pattern(a, fmt),
        is_pattern(b, fmt),
    ensures
        is_pattern(product_bits(a, b, fmt), fmt),
        product_bits(a, b, fmt) == product_bits(b, a, fmt),
        is_nan(product_bits(a, b, fmt), fmt) <==> is_nan(a, fmt) || is_nan(b, fmt) || (
        is_infinite(a, fmt) && is_zero(b, fmt)) || (is_zero(a, fmt) && is_infinite(b, fmt)),
        is_nan(product_bits(a, b, fmt), fmt) ==> product_bits(a, b, fmt) == fmt.quiet_nan(),
        !is_nan(product_bits(a, b, fmt), fmt) ==> sign_of(product_bits(a, b, fmt), fmt) == (
        sign_of(a, fmt) != sign_of(b, fmt)),
        !is_nan(product_bits(a, b, fmt), fmt) && (is_zero(a, fmt) || is_zero(b, fmt)) ==> is_zero(
            product_bits(a, b, fmt),
            fmt,
        ),
        is_finite(product_bits(a, b, fmt), fmt) ==> is_finite(a, fmt) && is_finite(b, fmt),
{
    reveal(product_bits);
    let negative = sign_of(a, fmt) != sign_of(b, fmt);
    let ma = mag(abs_bits(a, fmt), fmt);
    let mb = mag(abs_bits(b, fmt), fmt);
    let rounded = round_mag(ma * mb, pow2(fmt.unit_exp()), fmt);
    fmt.lemma_layout();
    lemma_with_sign(negative, fmt.inf(), fmt);
    lemma_with_sign(negative, rounded, fmt);
    lemma_with_sign(false, fmt.quiet_nan(), fmt);
    assert(ma * mb == mb * ma) by (nonlinear_arith);
    lemma_mag_zero(abs_bits(a, fmt), fmt);
    lemma_mag_zero(abs_bits(b, fmt), fmt);
    if ma == 0 || mb == 0 {
        assert(ma * mb == 0) by (nonlinear_arith)
            requires
                ma == 0 || mb == 0,
        ;
        lemma_pow2_pos(fmt.unit_exp());
        lemma_round_mag_zero(pow2(fmt.unit_exp()), fmt);
    }
}

/// A quotient is a NaN only of a NaN, of zero by zero or of infinity by
/// infinity; otherwise its sign bit is the difference of the signs.
pub proof fn lemma_quotient(a: nat, b: nat, fmt: Format)
    requires
        is_pattern(a, fmt),
        is_pattern(b, fmt),
    ensures
        is_pattern(quotient_bits(a, b, fmt), fmt),
        is_nan(quotient_bits(a, b, fmt), fmt) <==> is_nan(a, fmt) || is_nan(b, fmt) || (
        is_infinite(a, fmt) && is_infinite(b, fmt)) || (is_zero(a, fmt) && is_zero(b, fmt)),
        is_nan(quotient_bits(a, b, fmt), fmt) ==> quotient_bits(a, b, fmt) == fmt.quiet_nan(),
        !is_nan(quotient_bits(a, b, fmt), fmt) ==> sign_of(quotient_bits(a, b, fmt), fmt) == (
        sign_of(a, fmt) != sign_of(b, fmt)),
        !is_nan(quotient_bits(a, b, fmt), fmt) && is_infinite(b, fmt) ==> is_zero(
            quotient_bits(a, b, fmt),
            fmt,
        ),
        !is_nan(quotient_bits(a, b, fmt), fmt) && is_zero(b, fmt) ==> is_infinite(
            quotient_bits(a, b, fmt),
            fmt,
        ),
{
    reveal(quotient_bits);
    let negative = sign_of(a, fmt) != sign_of(b, fmt);
    let ma = mag(abs_bits(a, fmt), fmt);
    let mb = mag(abs_bits(b, fmt), fmt);
    let rounded = round_mag(ma * pow2(fmt.unit_exp()), mb, fmt);
    fmt.lemma_layout();
    lemma_with_sign(negative, fmt.inf(), fmt);
    lemma_with_sign(negative, 0, fmt);
    lemma_with_sign(negative, rounded, fmt);
    lemma_with_sign(false, fmt.quiet_nan(), fmt);
}

/// The sum of two finite numbers is a number, and lies on the side of zero
/// on which the exact sum lies.
pub proof fn lemma_sum_finite(a: nat, b: nat, fmt: Format)
    requires
        is_pattern(a, fmt),
        is_pattern(b, fmt),
        is_finite(a, fmt),
        is_finite(b, fmt),
    ensures
        is_pattern(sum_bits(a, b, fmt), fmt),
        !is_nan(sum_bits(a, b, fmt), fmt),
        is_negative(sum_bits(a, b, fmt), fmt) <==> value(a, fmt) + value(b, fmt) < 0,
        is_positive(sum_bits(a, b, fmt), fmt) <==> value(a, fmt) + value(b, fmt) > 0,
        sum_bits(a, b, fmt) == sum_bits(b, a, fmt),
{
    reveal(sum_bits);
    let s = value(a, fmt) + value(b, fmt);
    let r = sum_bits(a, b, fmt);
    fmt.lemma_layout();
    if s < 0 {
        let m = round_mag((-s) as nat, 1, fmt);
        lemma_round_nonzero((-s) as nat, fmt);
        lemma_with_sign(true, m, fmt);
        assert(r == with_sign(true, m, fmt));
        lemma_sign_of_number(r, fmt);
    } else if s > 0 {
        let m = round_mag(s as nat, 1, fmt);
        lemma_round_nonzero(s as nat, fmt);
        lemma_with_sign(false, m, fmt);
        assert(r == with_sign(false, m, fmt));
        lemma_sign_of_number(r, fmt);
    } else {
        lemma_with_sign(sign_of(a, fmt) && sign_of(b, fmt), 0, fmt);
        assert(r == with_sign(sign_of(a, fmt) && sign_of(b, fmt), 0, fmt));
        lemma_sign_of_number(r, fmt);
    }
}

/// A sum is a pattern; a NaN sum is the quiet NaN; terms none of which is
/// negative have no negative sum, and terms none of which is positive have no
/// positive sum.
pub proof fn lemma_sum(a: nat, b: nat, fmt: Format)
    requires
        is_pattern(a, fmt),
        is_pattern(b, fmt),
    ensures
        is_pattern(sum_bits(a, b, fmt), fmt),
        sum_bits(a, b, fmt) == sum_bits(b, a, fmt),
        is_nan(sum_bits(a, b, fmt), fmt) ==> sum_bits(a, b, fmt) == fmt.quiet_nan(),
        is_nan(a, fmt) || is_nan(b, fmt) ==> is_nan(sum_bits(a, b, fmt), fmt),
        is_finite(sum_bits(a, b, fmt), fmt) ==> is_finite(a, fmt) && is_finite(b, fmt),
        !is_negative(a, fmt) && !is_negative(b, fmt) ==> !is_negative(sum_bits(a, b, fmt), fmt),
        !is_positive(a, fmt) && !is_positive(b, fmt) ==> !is_positive(sum_bits(a, b, fmt), fmt),
{
    reveal(sum_bits);
    fmt.lemma_layout();
    lemma_with_sign(false, fmt.quiet_nan(), fmt);
    if is_nan(a, fmt) || is_nan(b, fmt) {
    } else if is_infinite(a, fmt) || is_infinite(b, fmt) {
        lemma_sign_of_number(a, fmt);
        lemma_sign_of_number(b, fmt);
    } else {
        lemma_sum_finite(a, b, fmt);
    }
}

/// Two patterns of one magnitude that lie on opposite sides of zero, unless
/// they are zeros or NaNs.
pub open spec fn mirrored(a: nat, b: nat, fmt: Format) -> bool {
    abs_bits(a, fmt) == abs_bits(b, fmt) && (is_nan(a, fmt) || is_zero(a, fmt) || sign_of(a, fmt)
        != sign_of(b, fmt))
}

/// Of two mirrored patterns one is negative where the other is positive.
pub proof fn lemma_mirrored(a: nat, b: nat, fmt: Format)
    requires
        is_pattern(a, fmt),
        is_pattern(b, fmt),
        mirrored(a, b, fmt),
    ensures
        mirrored(b, a, fmt),
        is_nan(a, fmt) == is_nan(b, fmt),
        is_zero(a, fmt) == is_zero(b, fmt),
        is_negative(a, fmt) == is_positive(b, fmt),
        is_positive(a, fmt) == is_negative(b, fmt),
{
    lemma_sign_of_number(a, fmt);
    lemma_sign_of_number(b, fmt);
}

/// Taking the terms of a difference the other way round mirrors it.
pub proof fn lemma_difference_mirrored(x: nat, y: nat, fmt: Format)
    requires
        is_pattern(x, fmt),
        is_pattern(y, fmt),
    ensures
        is_pattern(difference_bits(x, y, fmt), fmt),
        is_pattern(difference_bits(y, x, fmt), fmt),
        mirrored(difference_bits(x, y, fmt), difference_bits(y, x, fmt), fmt),
{
    reveal(sum_bits);
    let nx = negated_bits(x, fmt);
    let ny = negated_bits(y, fmt);
    fmt.lemma_layout();
    lemma_negated(x, fmt);
    lemma_negated(y, fmt);
    lemma_sum(x, ny, fmt);
    lemma_sum(y, nx, fmt);
    lemma_with_sign(false, fmt.quiet_nan(), fmt);
    if is_nan(x, fmt) || is_nan(y, fmt) {
    } else if is_infinite(x, fmt) || is_infinite(y, fmt) {
    } else {
        let s = value(x, fmt) + value(ny, fmt);
        let t = value(y, fmt) + value(nx, fmt);
        assert(t == -s);
        lemma_with_sign(sign_of(x, fmt) && sign_of(ny, fmt), 0, fmt);
        lemma_with_sign(sign_of(y, fmt) && sign_of(nx, fmt), 0, fmt);
        if s < 0 {
            let m = round_mag((-s) as nat, 1, fmt);
            lemma_with_sign(true, m, fmt);
            lemma_with_sign(false, m, fmt);
        } else if s > 0 {
            let m = round_mag(s as nat, 1, fmt);
            lemma_with_sign(true, m, fmt);
            lemma_with_sign(false, m, fmt);
        }
    }
}

/// Converting mirrored patterns gives mirrored patterns.
pub proof fn lemma_converted_mirrored(a: nat, b: nat, from: Format, to: Format)
    requires
        is_pattern(a, from),
        is_pattern(b, from),
        mirrored(a, b, from),
    ensures
        is_pattern(converted_bits(a, from, to), to),
        is_pattern(converted_bits(b, from, to), to),
        mirrored(converted_bits(a, from, to), converted_bits(b, from, to), to),
{
    reveal(converted_bits);
    from.lemma_layout();
    to.lemma_layout();
    let m = abs_bits(a, from);
    let rounded = round_mag(mag(m, from) * pow2(to.unit_exp()), pow2(from.unit_exp()), to);
    lemma_with_sign(false, to.quiet_nan(), to);
    lemma_with_sign(true, to.inf(), to);
    lemma_with_sign(false, to.inf(), to);
    lemma_with_sign(true, rounded, to);
    lemma_with_sign(false, rounded, to);
    if !is_nan(a, from) && is_zero(a, from) {
        lemma_mag_zero(0, from);
        assert(0 * pow2(to.unit_exp()) == 0);
        lemma_pow2_pos(from.unit_exp());
        lemma_round_mag_zero(pow2(from.unit_exp()), to);
    }
}

/// A whole number of units that is not zero does not round to zero.
pub proof fn lemma_round_nonzero(n: nat, fmt: Format)
    requires
        n > 0,
    ensures
        round_mag(n, 1, fmt) > 0,
{
    let e = crate::rounding::binade(n / 1, fmt);
    lemma_pow2_pos(e);
    let d = 1 * pow2(e);
    assert(n / 1 == n);
    assert(d == pow2(e));
    if e == 0 {
        vstd::arithmetic::power2::lemma2_to64();
        assert(crate::rounding::nearest_even(n, 1) == n);
    } else {
        assert(e * fmt.radix() > 0) by (nonlinear_arith)
            requires
                e >= 1,
                fmt.radix() > 0,
        ;
    }
    fmt.lemma_layout();
}

} // verus!
