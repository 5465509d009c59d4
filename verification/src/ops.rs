//! Arithmetic on bit patterns of either format: what each operation gives,
//! stated over the numbers that the patterns stand for, and the integer code
//! that computes it.
//!
//! A result that is not a number is always the one quiet NaN of the format,
//! with its sign bit clear.

use vstd::prelude::*;
use vstd::arithmetic::power2::{pow2, lemma_pow2_pos, lemma_pow2_adds, lemma2_to64, lemma2_to64_rest};
use crate::format::{
    Format, sign_of, abs_bits, with_sign, is_pattern, is_nan, is_infinite, is_finite, is_zero,
    significand, scale, mag, value, lemma_mag_bounds, lemma_mag_small, lemma_mag_increases,
};
use crate::rounding::{
    round_mag, round_scaled, round_ratio, lemma_round_scaled_split, lemma_round_mag_scale,
    lemma_round_exact, lemma_round_absorbs, lemma_div_bounds, bit_length,
};
use crate::power::{pow2_u128, lemma_pow2_increases, lemma_pow2_values};

verus! {

/// The pattern with its sign bit flipped.
pub open spec fn negated_bits(a: nat, fmt: Format) -> nat {
    with_sign(!sign_of(a, fmt), abs_bits(a, fmt), fmt)
}

/// The product of two patterns.
#[verifier::opaque]
pub open spec fn product_bits(a: nat, b: nat, fmt: Format) -> nat {
    let negative = sign_of(a, fmt) != sign_of(b, fmt);
    if is_nan(a, fmt) || is_nan(b, fmt) {
        fmt.quiet_nan()
    } else if is_infinite(a, fmt) || is_infinite(b, fmt) {
        if is_zero(a, fmt) || is_zero(b, fmt) {
            fmt.quiet_nan()
        } else {
            with_sign(negative, fmt.inf(), fmt)
        }
    } else {
        with_sign(
            negative,
            round_mag(
                mag(abs_bits(a, fmt), fmt) * mag(abs_bits(b, fmt), fmt),
                pow2(fmt.unit_exp()),
                fmt,
            ),
            fmt,
        )
    }
}

/// The sum of two patterns. An exact zero is positive unless both terms are
/// negative zeros.
#[verifier::opaque]
pub open spec fn sum_bits(a: nat, b: nat, fmt: Format) -> nat {
    if is_nan(a, fmt) || is_nan(b, fmt) {
        fmt.quiet_nan()
    } else if is_infinite(a, fmt) {
        if is_infinite(b, fmt) && sign_of(a, fmt) != sign_of(b, fmt) {
            fmt.quiet_nan()
        } else {
            a
        }
    } else if is_infinite(b, fmt) {
        b
    } else {
        let s = value(a, fmt) + value(b, fmt);
        if s == 0 {
            with_sign(sign_of(a, fmt) && sign_of(b, fmt), 0, fmt)
        } else if s < 0 {
            with_sign(true, round_mag((-s) as nat, 1, fmt), fmt)
        } else {
            with_sign(false, round_mag(s as nat, 1, fmt), fmt)
        }
    }
}

/// The difference of two patterns: the sum with the second one negated.
pub open spec fn difference_bits(a: nat, b: nat, fmt: Format) -> nat {
    sum_bits(a, negated_bits(b, fmt), fmt)
}

/// The quotient of two patterns.
#[verifier::opaque]
pub open spec fn quotient_bits(a: nat, b: nat, fmt: Format) -> nat {
    let negative = sign_of(a, fmt) != sign_of(b, fmt);
    if is_nan(a, fmt) || is_nan(b, fmt) {
        fmt.quiet_nan()
    } else if is_infinite(a, fmt) {
        if is_infinite(b, fmt) {
            fmt.quiet_nan()
        } else {
            with_sign(negative, fmt.inf(), fmt)
        }
    } else if is_infinite(b, fmt) {
        with_sign(negative, 0, fmt)
    } else if is_zero(b, fmt) {
        if is_zero(a, fmt) {
            fmt.quiet_nan()
        } else {
            with_sign(negative, fmt.inf(), fmt)
        }
    } else {
        with_sign(
            negative,
            round_mag(
                mag(abs_bits(a, fmt), fmt) * pow2(fmt.unit_exp()),
                mag(abs_bits(b, fmt), fmt),
                fmt,
            ),
            fmt,
        )
    }
}

/// A pattern of one format as a pattern of another: the nearest number there.
#[verifier::opaque]
pub open spec fn converted_bits(a: nat, from: Format, to: Format) -> nat {
    if is_nan(a, from) {
        to.quiet_nan()
    } else if is_infinite(a, from) {
        with_sign(sign_of(a, from), to.inf(), to)
    } else {
        with_sign(
            sign_of(a, from),
            round_mag(
                mag(abs_bits(a, from), from) * pow2(to.unit_exp()),
                pow2(from.unit_exp()),
                to,
            ),
            to,
        )
    }
}

/// Whether the first pattern is a number below the second. A NaN is below
/// nothing and nothing is below it; the two zeros are equal.
pub open spec fn below(a: nat, b: nat, fmt: Format) -> bool {
    !is_nan(a, fmt) && !is_nan(b, fmt) && value(a, fmt) < value(b, fmt)
}

/// Whether two patterns are numbers and the same number.
pub open spec fn same_number(a: nat, b: nat, fmt: Format) -> bool {
    !is_nan(a, fmt) && !is_nan(b, fmt) && value(a, fmt) == value(b, fmt)
}

/// Splits a pattern into its sign and its magnitude pattern.
pub(crate) fn split(bits: u64, fmt: Format) -> (r: (bool, u64))
    requires
        is_pattern(bits as nat, fmt),
    ensures
        r.0 == sign_of(bits as nat, fmt),
        r.1 == abs_bits(bits as nat, fmt),
        r.1 < fmt.sign_bit(),
{
    let sign: u64 = fmt.sign_bit_u64();
    if bits >= sign {
        (true, bits - sign)
    } else {
        (false, bits)
    }
}

/// Puts a sign on a magnitude pattern.
pub(crate) fn join(negative: bool, m: u64, fmt: Format) -> (r: u64)
    requires
        m < fmt.sign_bit(),
    ensures
        r == with_sign(negative, m as nat, fmt),
        is_pattern(r as nat, fmt),
        sign_of(r as nat, fmt) == negative,
        abs_bits(r as nat, fmt) == m,
{
    let sign: u64 = fmt.sign_bit_u64();
    if negative {
        m + sign
    } else {
        m
    }
}

/// Significand and scale of a magnitude pattern.
pub(crate) fn unpack(m: u64, fmt: Format) -> (r: (u64, i64))
    requires
        m < fmt.sign_bit(),
    ensures
        r.0 == significand(m as nat, fmt),
        r.1 == scale(m as nat, fmt),
        r.0 < 2 * fmt.radix(),
        0 <= r.1 <= 2046,
        m > 0 ==> r.0 > 0,
{
    let radix: u64 = fmt.radix_u64();
    if m < radix {
        (m, 0)
    } else if m < 2 * radix {
        (radix + m % radix, 0)
    } else {
        (radix + m % radix, (m / radix - 1) as i64)
    }
}

/// Flips the sign bit.
pub(crate) fn negated(a: u64, fmt: Format) -> (r: u64)
    requires
        is_pattern(a as nat, fmt),
    ensures
        r == negated_bits(a as nat, fmt),
        is_pattern(r as nat, fmt),
{
    let (negative, m) = split(a, fmt);
    join(!negative, m, fmt)
}

/// Multiplies.
pub(crate) fn product(a: u64, b: u64, fmt: Format) -> (r: u64)
    requires
        is_pattern(a as nat, fmt),
        is_pattern(b as nat, fmt),
    ensures
        r == product_bits(a as nat, b as nat, fmt),
        is_pattern(r as nat, fmt),
{
    proof {
        reveal(product_bits);
    }
    let inf: u64 = fmt.inf_u64();
    let (neg_a, ma) = split(a, fmt);
    let (neg_b, mb) = split(b, fmt);
    let negative: bool = neg_a != neg_b;
    if ma > inf || mb > inf {
        return fmt.quiet_nan_u64();
    }
    if ma == inf || mb == inf {
        if ma == 0 || mb == 0 {
            return fmt.quiet_nan_u64();
        }
        return join(negative, inf, fmt);
    }
    let (ga, sa) = unpack(ma, fmt);
    let (gb, sb) = unpack(mb, fmt);
    proof {
        lemma_pow2_values();
        assert((ga as u128) * (gb as u128) < 0x400_0000_0000_0000_0000_0000_0000) by (nonlinear_arith)
            requires
                ga < 0x20_0000_0000_0000,
                gb < 0x20_0000_0000_0000,
        ;
    }
    let q: u128 = (ga as u128) * (gb as u128);
    let e: i64 = sa + sb - fmt.unit_exp_i64();
    let m: u64 = round_ratio(q, 1, e, fmt);
    proof {
        fmt.lemma_layout();
        let x = (sa + sb) as nat;
        lemma_round_scaled_split(q as nat, 1, x, fmt.unit_exp(), fmt);
        lemma_pow2_adds(sa as nat, sb as nat);
        assert(mag(ma as nat, fmt) * mag(mb as nat, fmt) == q as nat * pow2(x)) by (nonlinear_arith)
            requires
                mag(ma as nat, fmt) == ga as nat * pow2(sa as nat),
                mag(mb as nat, fmt) == gb as nat * pow2(sb as nat),
                q == ga * gb,
                pow2(x) == pow2(sa as nat) * pow2(sb as nat),
        ;
        assert(1 * pow2(fmt.unit_exp()) == pow2(fmt.unit_exp()));
    }
    join(negative, m, fmt)
}

/// A larger magnitude pattern has no smaller scale.
pub proof fn lemma_scale_increases(a: nat, b: nat, fmt: Format)
    requires
        a <= b,
    ensures
        scale(a, fmt) <= scale(b, fmt),
{
    match fmt {
        Format::Single => {},
        Format::Double => {},
    }
}

/// The sum of two finite numbers given by sign and magnitude pattern, the
/// one of larger magnitude first.
pub open spec fn ordered_sum_bits(
    neg_big: bool,
    big: nat,
    neg_small: bool,
    small: nat,
    fmt: Format,
) -> nat {
    if neg_big == neg_small {
        with_sign(neg_big, round_mag(mag(big, fmt) + mag(small, fmt), 1, fmt), fmt)
    } else if big == small {
        0
    } else {
        with_sign(neg_big, round_mag((mag(big, fmt) - mag(small, fmt)) as nat, 1, fmt), fmt)
    }
}

/// The sum of two finite patterns is the sum of their magnitudes in order.
pub proof fn lemma_sum_ordered(a: nat, b: nat, fmt: Format)
    requires
        is_finite(a, fmt),
        is_finite(b, fmt),
    ensures
        abs_bits(a, fmt) >= abs_bits(b, fmt) ==> sum_bits(a, b, fmt) == ordered_sum_bits(
            sign_of(a, fmt),
            abs_bits(a, fmt),
            sign_of(b, fmt),
            abs_bits(b, fmt),
            fmt,
        ),
        abs_bits(a, fmt) < abs_bits(b, fmt) ==> sum_bits(a, b, fmt) == ordered_sum_bits(
            sign_of(b, fmt),
            abs_bits(b, fmt),
            sign_of(a, fmt),
            abs_bits(a, fmt),
            fmt,
        ),
{
    reveal(sum_bits);
    let ma = abs_bits(a, fmt);
    let mb = abs_bits(b, fmt);
    fmt.lemma_layout();
    lemma_mag_small(0, fmt);
    if ma < mb {
        lemma_mag_increases(ma, mb, fmt);
    }
    if mb < ma {
        lemma_mag_increases(mb, ma, fmt);
    }
    if 0 < ma {
        lemma_mag_increases(0, ma, fmt);
    }
    if 0 < mb {
        lemma_mag_increases(0, mb, fmt);
    }
    if ma == 0 && mb == 0 {
        crate::rounding::lemma_round_mag_zero(1, fmt);
    }
}

/// Aligning the larger significand on the smaller scale gives the exact sum
/// or difference as a whole number of the smaller last place.
pub proof fn lemma_aligned(big: nat, small: nat, step: nat, q: nat, same_sign: bool, fmt: Format)
    requires
        small <= big,
        scale(small, fmt) <= scale(big, fmt),
        step == pow2((scale(big, fmt) - scale(small, fmt)) as nat),
        same_sign ==> q == significand(big, fmt) * step + significand(small, fmt),
        !same_sign ==> q == significand(big, fmt) * step - significand(small, fmt),
    ensures
        significand(big, fmt) * step >= significand(small, fmt),
        same_sign ==> q * pow2(scale(small, fmt)) == mag(big, fmt) + mag(small, fmt),
        !same_sign ==> q * pow2(scale(small, fmt)) == mag(big, fmt) - mag(small, fmt),
{
    let unit = pow2(scale(small, fmt));
    let g_big = significand(big, fmt);
    let g_small = significand(small, fmt);
    let m_big = mag(big, fmt);
    let m_small = mag(small, fmt);
    if small < big {
        lemma_mag_increases(small, big, fmt);
    }
    lemma_pow2_adds((scale(big, fmt) - scale(small, fmt)) as nat, scale(small, fmt));
    lemma_pow2_pos(scale(small, fmt));
    assert(m_big == (g_big * step) * unit) by (nonlinear_arith)
        requires
            m_big == g_big * pow2(scale(big, fmt)),
            pow2(scale(big, fmt)) == step * unit,
    ;
    assert(g_big * step >= g_small) by (nonlinear_arith)
        requires
            m_big == (g_big * step) * unit,
            m_small == g_small * unit,
            m_big >= m_small,
            unit > 0,
    ;
    assert((g_big * step + g_small) * unit == m_big + m_small && (g_big * step - g_small) * unit
        == m_big - m_small) by (nonlinear_arith)
        requires
            m_big == (g_big * step) * unit,
            m_small == g_small * unit,
    ;
}

/// With the exact sum or difference at hand as `q` last places of the smaller
/// term, the sum is `q` rounded, or zero where the terms cancel.
pub proof fn lemma_ordered_sum_exact(
    neg_big: bool,
    big: nat,
    neg_small: bool,
    small: nat,
    q: nat,
    fmt: Format,
)
    requires
        small <= big,
        neg_big == neg_small ==> q * pow2(scale(small, fmt)) == mag(big, fmt) + mag(small, fmt),
        neg_big != neg_small ==> q * pow2(scale(small, fmt)) == mag(big, fmt) - mag(small, fmt),
        small > 0,
    ensures
        q == 0 ==> ordered_sum_bits(neg_big, big, neg_small, small, fmt) == 0,
        q > 0 ==> ordered_sum_bits(neg_big, big, neg_small, small, fmt) == with_sign(
            neg_big,
            round_scaled(q, 1, scale(small, fmt) as int, fmt),
            fmt,
        ),
{
    let unit = pow2(scale(small, fmt));
    lemma_pow2_pos(scale(small, fmt));
    lemma_mag_small(0, fmt);
    lemma_mag_increases(0, small, fmt);
    if small < big {
        lemma_mag_increases(small, big, fmt);
    }
    assert(q > 0 ==> q * unit > 0) by (nonlinear_arith)
        requires
            unit > 0,
    ;
    assert(q == 0 ==> q * unit == 0);
}

/// A number whose scale lies more than sixty places under another's is under
/// a quarter of that one's last place.
pub proof fn lemma_far_below(big: nat, small: nat, fmt: Format)
    requires
        scale(small, fmt) + 60 < scale(big, fmt),
    ensures
        4 * mag(small, fmt) < pow2(scale(big, fmt)),
{
    let s_small = scale(small, fmt);
    lemma2_to64();
    lemma2_to64_rest();
    lemma_mag_bounds(small, fmt);
    lemma_pow2_adds(56, s_small);
    lemma_pow2_increases(56 + s_small, scale(big, fmt));
    assert(4 * mag(small, fmt) < pow2(56) * pow2(s_small)) by (nonlinear_arith)
        requires
            mag(small, fmt) < 2 * fmt.radix() * pow2(s_small),
            2 * fmt.radix() <= 0x20_0000_0000_0000,
            pow2(56) == 0x100_0000_0000_0000,
    ;
}

/// Adds two finite numbers given by sign and magnitude pattern, the one of
/// larger magnitude first.
pub(crate) fn ordered_sum(neg_big: bool, big: u64, neg_small: bool, small: u64, fmt: Format) -> (r: u64)
    requires
        small <= big < fmt.inf(),
    ensures
        r == ordered_sum_bits(neg_big, big as nat, neg_small, small as nat, fmt),
        is_pattern(r as nat, fmt),
{
    proof {
        fmt.lemma_layout();
        lemma_mag_small(0, fmt);
    }
    if small == 0 {
        proof {
            lemma_round_exact(big as nat, fmt);
        }
        if big == 0 && neg_big != neg_small {
            return 0;
        }
        return join(neg_big, big, fmt);
    }
    let (g_big, s_big) = unpack(big, fmt);
    let (g_small, s_small) = unpack(small, fmt);
    proof {
        lemma_scale_increases(small as nat, big as nat, fmt);
        lemma_mag_increases(0, small as nat, fmt);
    }
    let gap: i64 = s_big - s_small;
    if gap > 60 {
        proof {
            lemma_far_below(big as nat, small as nat, fmt);
            lemma_round_absorbs(big as nat, mag(small as nat, fmt), fmt);
        }
        return join(neg_big, big, fmt);
    }
    let step: u128 = pow2_u128(gap as u32);
    proof {
        lemma2_to64();
        lemma2_to64_rest();
        lemma_pow2_values();
        lemma_pow2_increases(gap as nat, 60);
        assert((g_big as u128) * step < 0x2_0000_0000_0000_0000_0000_0000_0000) by (nonlinear_arith)
            requires
                g_big < 0x20_0000_0000_0000,
                step <= 0x1000_0000_0000_0000,
        ;
    }
    let high: u128 = (g_big as u128) * step;
    proof {
        lemma_aligned(big as nat, small as nat, step as nat, (high + g_small) as nat, true, fmt);
    }
    let q: u128 = if neg_big == neg_small {
        high + g_small as u128
    } else {
        high - g_small as u128
    };
    proof {
        lemma_aligned(big as nat, small as nat, step as nat, q as nat, neg_big == neg_small, fmt);
        lemma_ordered_sum_exact(neg_big, big as nat, neg_small, small as nat, q as nat, fmt);
    }
    if q == 0 {
        return 0;
    }
    let m: u64 = round_ratio(q, 1, s_small, fmt);
    join(neg_big, m, fmt)
}

/// Adds.
pub(crate) fn sum(a: u64, b: u64, fmt: Format) -> (r: u64)
    requires
        is_pattern(a as nat, fmt),
        is_pattern(b as nat, fmt),
    ensures
        r == sum_bits(a as nat, b as nat, fmt),
        is_pattern(r as nat, fmt),
{
    proof {
        reveal(sum_bits);
    }
    let inf: u64 = fmt.inf_u64();
    let (neg_a, ma) = split(a, fmt);
    let (neg_b, mb) = split(b, fmt);
    proof {
        fmt.lemma_layout();
    }
    if ma > inf || mb > inf {
        return fmt.quiet_nan_u64();
    }
    if ma == inf {
        if mb == inf && neg_a != neg_b {
            return fmt.quiet_nan_u64();
        }
        return a;
    }
    if mb == inf {
        return b;
    }
    proof {
        lemma_sum_ordered(a as nat, b as nat, fmt);
    }
    if ma >= mb {
        ordered_sum(neg_a, ma, neg_b, mb, fmt)
    } else {
        ordered_sum(neg_b, mb, neg_a, ma, fmt)
    }
}

/// Subtracts.
pub(crate) fn difference(a: u64, b: u64, fmt: Format) -> (r: u64)
    requires
        is_pattern(a as nat, fmt),
        is_pattern(b as nat, fmt),
    ensures
        r == difference_bits(a as nat, b as nat, fmt),
        is_pattern(r as nat, fmt),
{
    let minus_b: u64 = negated(b, fmt);
    sum(a, minus_b, fmt)
}

/// The quotient of two numbers from their significands, the first scaled up
/// by `w` places.
pub proof fn lemma_quotient_scaled(ma: nat, mb: nat, w: nat, fmt: Format)
    requires
        mb > 0,
    ensures
        significand(mb, fmt) > 0,
        mag(mb, fmt) > 0,
        round_scaled(
            significand(ma, fmt) * pow2(w),
            significand(mb, fmt),
            scale(ma, fmt) + fmt.unit_exp() - (w + scale(mb, fmt)),
            fmt,
        ) == round_mag(mag(ma, fmt) * pow2(fmt.unit_exp()), mag(mb, fmt), fmt),
{
    let ga = significand(ma, fmt);
    let gb = significand(mb, fmt);
    let x = scale(ma, fmt) + fmt.unit_exp();
    let y = w + scale(mb, fmt);
    let pw = pow2(w);
    lemma_mag_small(0, fmt);
    lemma_mag_increases(0, mb, fmt);
    assert(gb > 0) by {
        match fmt {
            Format::Single => {},
            Format::Double => {},
        }
    }
    lemma_round_scaled_split(ga * pw, gb, x, y, fmt);
    lemma_pow2_adds(scale(ma, fmt), fmt.unit_exp());
    lemma_pow2_adds(w, scale(mb, fmt));
    lemma_pow2_pos(w);
    assert((ga * pw) * pow2(x) == (mag(ma, fmt) * pow2(fmt.unit_exp())) * pw) by (nonlinear_arith)
        requires
            mag(ma, fmt) == ga * pow2(scale(ma, fmt)),
            pow2(x) == pow2(scale(ma, fmt)) * pow2(fmt.unit_exp()),
    ;
    assert(gb * pow2(y) == mag(mb, fmt) * pw) by (nonlinear_arith)
        requires
            mag(mb, fmt) == gb * pow2(scale(mb, fmt)),
            pow2(y) == pw * pow2(scale(mb, fmt)),
    ;
    lemma_round_mag_scale(mag(ma, fmt) * pow2(fmt.unit_exp()), mag(mb, fmt), pw, fmt);
}

/// Divides.
pub(crate) fn quotient(a: u64, b: u64, fmt: Format) -> (r: u64)
    requires
        is_pattern(a as nat, fmt),
        is_pattern(b as nat, fmt),
    ensures
        r == quotient_bits(a as nat, b as nat, fmt),
        is_pattern(r as nat, fmt),
{
    proof {
        reveal(quotient_bits);
    }
    let inf: u64 = fmt.inf_u64();
    let (neg_a, ma) = split(a, fmt);
    let (neg_b, mb) = split(b, fmt);
    let negative: bool = neg_a != neg_b;
    proof {
        fmt.lemma_layout();
    }
    if ma > inf || mb > inf {
        return fmt.quiet_nan_u64();
    }
    if ma == inf {
        if mb == inf {
            return fmt.quiet_nan_u64();
        }
        return join(negative, inf, fmt);
    }
    if mb == inf {
        return join(negative, 0, fmt);
    }
    if mb == 0 {
        if ma == 0 {
            return fmt.quiet_nan_u64();
        }
        return join(negative, inf, fmt);
    }
    if ma == 0 {
        proof {
            lemma_mag_small(0, fmt);
            lemma_mag_increases(0, mb as nat, fmt);
            assert(0 * pow2(fmt.unit_exp()) == 0);
            crate::rounding::lemma_round_mag_zero(mag(mb as nat, fmt), fmt);
        }
        return join(negative, 0, fmt);
    }
    let (ga, sa) = unpack(ma, fmt);
    let (gb, sb) = unpack(mb, fmt);
    let p: u32 = fmt.frac_bits_u32();
    let len: u32 = bit_length(ga as u128);
    proof {
        fmt.lemma_radix();
        if len > p + 1 {
            lemma_pow2_increases((p + 1) as nat, (len - 1) as nat);
        }
    }
    let w: u32 = (p + 1 - len) + p + 2;
    let scale_up: u128 = pow2_u128(w);
    proof {
        lemma_pow2_values();
        lemma_pow2_adds(len as nat, w as nat);
        lemma_pow2_adds((len - 1) as nat, w as nat);
        lemma_pow2_adds((p + 1) as nat, (p + 1) as nat);
        lemma_pow2_increases((2 * p + 3) as nat, 107);
        assert(pow2((len - 1) as nat) * scale_up <= ga * scale_up < pow2(len as nat) * scale_up)
            by (nonlinear_arith)
            requires
                pow2((len - 1) as nat) <= ga < pow2(len as nat),
                scale_up > 0,
        ;
    }
    let num: u128 = (ga as u128) * scale_up;
    let den: u128 = gb as u128;
    let e: i64 = sa + fmt.unit_exp_i64() - (w as i64 + sb);
    proof {
        lemma_quotient_scaled(ma as nat, mb as nat, w as nat, fmt);
        let top = pow2((p + 1) as nat);
        assert(top * den <= num < (num + 1) * den) by (nonlinear_arith)
            requires
                top * top <= num,
                1 <= den < top,
        ;
        lemma_div_bounds(num as nat, den as nat, top, (num + 1) as nat);
    }
    let m: u64 = round_ratio(num, den, e, fmt);
    join(negative, m, fmt)
}

/// Whether the first pattern is a number below the second.
pub(crate) fn is_below(a: u64, b: u64, fmt: Format) -> (r: bool)
    requires
        is_pattern(a as nat, fmt),
        is_pattern(b as nat, fmt),
    ensures
        r == below(a as nat, b as nat, fmt),
{
    let inf: u64 = fmt.inf_u64();
    let (neg_a, ma) = split(a, fmt);
    let (neg_b, mb) = split(b, fmt);
    if ma > inf || mb > inf {
        return false;
    }
    proof {
        lemma_mag_small(0, fmt);
        if ma < mb {
            lemma_mag_increases(ma as nat, mb as nat, fmt);
        }
        if mb < ma {
            lemma_mag_increases(mb as nat, ma as nat, fmt);
        }
        if 0 < ma {
            lemma_mag_increases(0, ma as nat, fmt);
        }
        if 0 < mb {
            lemma_mag_increases(0, mb as nat, fmt);
        }
    }
    if neg_a {
        if neg_b {
            mb < ma
        } else {
            ma != 0 || mb != 0
        }
    } else {
        if neg_b {
            false
        } else {
            ma < mb
        }
    }
}

/// Whether two patterns are numbers and the same number.
pub(crate) fn is_same_number(a: u64, b: u64, fmt: Format) -> (r: bool)
    requires
        is_pattern(a as nat, fmt),
        is_pattern(b as nat, fmt),
    ensures
        r == same_number(a as nat, b as nat, fmt),
{
    let inf: u64 = fmt.inf_u64();
    let (neg_a, ma) = split(a, fmt);
    let (neg_b, mb) = split(b, fmt);
    if ma > inf || mb > inf {
        return false;
    }
    proof {
        lemma_mag_small(0, fmt);
        if ma < mb {
            lemma_mag_increases(ma as nat, mb as nat, fmt);
        }
        if mb < ma {
            lemma_mag_increases(mb as nat, ma as nat, fmt);
        }
        if 0 < ma {
            lemma_mag_increases(0, ma as nat, fmt);
        }
        if 0 < mb {
            lemma_mag_increases(0, mb as nat, fmt);
        }
    }
    if neg_a == neg_b {
        ma == mb
    } else {
        ma == 0 && mb == 0
    }
}

/// Converts between the formats.
pub(crate) fn converted(a: u64, from: Format, to: Format) -> (r: u64)
    requires
        is_pattern(a as nat, from),
    ensures
        r == converted_bits(a as nat, from, to),
        is_pattern(r as nat, to),
{
    proof {
        reveal(converted_bits);
        to.lemma_layout();
        from.lemma_layout();
    }
    let (negative, m) = split(a, from);
    if m > from.inf_u64() {
        return to.quiet_nan_u64();
    }
    if m == from.inf_u64() {
        return join(negative, to.inf_u64(), to);
    }
    let (g, s) = unpack(m, from);
    let e: i64 = s + to.unit_exp_i64() - from.unit_exp_i64();
    proof {
        lemma_pow2_values();
    }
    let rounded: u64 = round_ratio(g as u128, 1, e, to);
    proof {
        to.lemma_layout();
        let x = (s + to.unit_exp()) as nat;
        lemma_round_scaled_split(g as nat, 1, x, from.unit_exp(), to);
        lemma_pow2_adds(s as nat, to.unit_exp());
        assert(mag(m as nat, from) * pow2(to.unit_exp()) == g as nat * pow2(x)) by (nonlinear_arith)
            requires
                mag(m as nat, from) == g as nat * pow2(s as nat),
                pow2(x) == pow2(s as nat) * pow2(to.unit_exp()),
        ;
        assert(1 * pow2(from.unit_exp()) == pow2(from.unit_exp()));
    }
    join(negative, rounded, to)
}

} // verus!
