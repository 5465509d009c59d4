//! How far the rounded operations lie from the exact ones, and what that
//! leaves of the sum of the three weights of a hit.

use vstd::prelude::*;
use vstd::arithmetic::power2::{pow2, lemma_pow2_pos, lemma_pow2_adds, lemma2_to64, lemma2_to64_rest};
use crate::format::{
    Format, sign_of, abs_bits, is_pattern, is_finite, is_zero, mag, value,
    lemma_mag_zero,
};
use crate::rounding::{round_mag, lemma_round_error, lemma_round_mag_zero};
use crate::ops::{product_bits, sum_bits, quotient_bits};
use crate::facts::lemma_with_sign;
use crate::order::lemma_product_value;

verus! {

/// The sum of two finite numbers, where it is finite, lies within one part
/// in twice the radix of the exact sum, on the same side of zero.
pub proof fn lemma_sum_error(a: nat, b: nat, fmt: Format)
    requires
        is_pattern(a, fmt),
        is_pattern(b, fmt),
        is_finite(a, fmt),
        is_finite(b, fmt),
        is_finite(sum_bits(a, b, fmt), fmt),
    ensures
        ({
            let s = value(a, fmt) + value(b, fmt);
            let r = value(sum_bits(a, b, fmt), fmt);
            &&& s >= 0 ==> r >= 0 && -s <= 2 * fmt.radix() * (r - s) <= s
            &&& s <= 0 ==> r <= 0 && s <= 2 * fmt.radix() * (r - s) <= -s
        }),
{
    reveal(sum_bits);
    let s = value(a, fmt) + value(b, fmt);
    fmt.lemma_layout();
    lemma2_to64();
    if s == 0 {
        lemma_with_sign(sign_of(a, fmt) && sign_of(b, fmt), 0, fmt);
        lemma_mag_zero(0, fmt);
    } else if s > 0 {
        let m = round_mag(s as nat, 1, fmt);
        lemma_with_sign(false, m, fmt);
        lemma_round_error(s as nat, 1, fmt);
        assert(mag(m, fmt) * 1 == mag(m, fmt));
    } else {
        let m = round_mag((-s) as nat, 1, fmt);
        lemma_with_sign(true, m, fmt);
        lemma_round_error((-s) as nat, 1, fmt);
        assert(mag(m, fmt) * 1 == mag(m, fmt));
    }
}

/// The product of two finite numbers whose exact product is not negative,
/// where it is finite, lies within one part in twice the radix of the exact
/// product, or within half a unit of it.
pub proof fn lemma_product_error(a: nat, b: nat, fmt: Format)
    requires
        is_pattern(a, fmt),
        is_pattern(b, fmt),
        is_finite(a, fmt),
        is_finite(b, fmt),
        is_finite(product_bits(a, b, fmt), fmt),
        value(a, fmt) * value(b, fmt) >= 0,
    ensures
        ({
            let x = value(a, fmt) * value(b, fmt);
            let z = pow2(fmt.unit_exp());
            let r = value(product_bits(a, b, fmt), fmt);
            &&& r >= 0
            &&& -(x + fmt.radix() * z) <= 2 * fmt.radix() * (r * z - x) <= x + fmt.radix() * z
        }),
{
    let z = pow2(fmt.unit_exp());
    let p = fmt.radix();
    let exact = mag(abs_bits(a, fmt), fmt) * mag(abs_bits(b, fmt), fmt);
    let m = round_mag(exact, z, fmt);
    lemma_product_value(a, b, fmt);
    lemma_pow2_pos(fmt.unit_exp());
    fmt.lemma_layout();
    reveal(product_bits);
    lemma_with_sign(sign_of(a, fmt) != sign_of(b, fmt), m, fmt);
    if sign_of(a, fmt) != sign_of(b, fmt) {
        assert(exact == 0);
        lemma_round_mag_zero(z, fmt);
        lemma_mag_zero(0, fmt);
        assert(0 * z == 0);
        assert(p * z >= 0) by (nonlinear_arith)
            requires
                p >= 0,
                z >= 0,
        ;
    } else {
        lemma_round_error(exact, z, fmt);
        let err = mag(m, fmt) * z - exact;
        assert(-(exact + p * z) <= 2 * p * err <= exact + p * z) by (nonlinear_arith)
            requires
                -(exact as int) <= 2 * p * err <= exact || -(z as int) <= 2 * err <= z,
                p > 0,
                exact >= 0,
                z > 0,
        ;
    }
}

/// The quotient of two positive finite numbers, where it is finite, lies
/// within one part in twice the radix of the exact quotient, or within half
/// a unit of it.
pub proof fn lemma_quotient_error(a: nat, b: nat, fmt: Format)
    requires
        is_pattern(a, fmt),
        is_pattern(b, fmt),
        is_finite(a, fmt),
        is_finite(b, fmt),
        !sign_of(a, fmt),
        !sign_of(b, fmt),
        !is_zero(b, fmt),
        is_finite(quotient_bits(a, b, fmt), fmt),
    ensures
        ({
            let n = value(a, fmt) * pow2(fmt.unit_exp());
            let d = value(b, fmt);
            let r = value(quotient_bits(a, b, fmt), fmt);
            &&& r >= 0
            &&& d > 0
            &&& -(n + fmt.radix() * d) <= 2 * fmt.radix() * (r * d - n) <= n + fmt.radix() * d
        }),
{
    reveal(quotient_bits);
    let z = pow2(fmt.unit_exp());
    let p = fmt.radix();
    let n = mag(abs_bits(a, fmt), fmt) * z;
    let d = mag(abs_bits(b, fmt), fmt);
    let m = round_mag(n, d, fmt);
    fmt.lemma_layout();
    lemma_mag_zero(abs_bits(b, fmt), fmt);
    lemma_with_sign(false, m, fmt);
    lemma_round_error(n, d, fmt);
    let err = mag(m, fmt) * d - n;
    assert(-(n + p * d) <= 2 * p * err <= n + p * d) by (nonlinear_arith)
        requires
            -(n as int) <= 2 * p * err <= n || -(d as int) <= 2 * err <= d,
            p > 0,
            n >= 0,
            d > 0,
    ;
}

/// One, in units of binary32: two to the 149th.
pub open spec fn unit_one() -> int {
    0x20000000000000000000000000000000000000int
}

/// The square of `unit_one`.
pub open spec fn unit_one_squared() -> int {
    0x400000000000000000000000000000000000000000000000000000000000000000000000000int
}

/// The values of the powers of two that binary32 arithmetic is counted in.
pub proof fn lemma_unit_one()
    ensures
        pow2(149) == unit_one(),
        pow2(298) == unit_one_squared(),
        unit_one() * unit_one() == unit_one_squared(),
        pow2(277) == 0x2000000000000000000000000000000000000000000000000000000000000000000000int,
{
    lemma2_to64();
    lemma2_to64_rest();
    lemma_pow2_adds(60, 60);
    lemma_pow2_adds(120, 29);
    lemma_pow2_adds(149, 149);
    lemma_pow2_adds(149, 128);
    lemma_pow2_adds(64, 64);
    assert(pow2(120) == 0x1000000000000000000000000000000int) by (nonlinear_arith)
        requires
            pow2(120) == pow2(60) * pow2(60),
            pow2(60) == 0x1000000000000000,
    ;
    assert(pow2(149) == unit_one()) by (nonlinear_arith)
        requires
            pow2(149) == pow2(120) * pow2(29),
            pow2(120) == 0x1000000000000000000000000000000int,
            pow2(29) == 0x20000000,
    ;
    assert(unit_one() * unit_one() == unit_one_squared()) by (nonlinear_arith);
    assert(pow2(128) == 0x100000000000000000000000000000000int) by (nonlinear_arith)
        requires
            pow2(128) == pow2(64) * pow2(64),
            pow2(64) == 0x10000000000000000,
    ;
    assert(pow2(277)
        == 0x2000000000000000000000000000000000000000000000000000000000000000000000int)
        by (nonlinear_arith)
        requires
            pow2(277) == pow2(149) * pow2(128),
            pow2(149) == 0x20000000000000000000000000000000000000int,
            pow2(128) == 0x100000000000000000000000000000000int,
    ;
}

/// Three weights that are not negative, summed in two rounded steps to a
/// determinant, and each multiplied by the rounded reciprocal of it, sum to
/// one within one part in a hundred thousand. All numbers are in units of
/// binary32; `s1` is the rounded sum of `u` and `v`, `d` that of `s1` and `w`,
/// `r` the rounded reciprocal of `d`, and `uu`, `vv`, `ww` the rounded
/// products of `u`, `v`, `w` with `r`.
pub proof fn lemma_partition_of_unity(
    u: int,
    v: int,
    w: int,
    s1: int,
    d: int,
    r: int,
    uu: int,
    vv: int,
    ww: int,
)
    requires
        0 <= u,
        0 <= v,
        0 <= w,
        0 < d < 0x2000000000000000000000000000000000000000000000000000000000000000000000int,
        0 <= r,
        -(u + v) <= 0x100_0000 * (s1 - (u + v)) <= u + v,
        -(s1 + w) <= 0x100_0000 * (d - (s1 + w)) <= s1 + w,
        -(unit_one_squared() + 0x80_0000 * d) <= 0x100_0000 * (r * d - unit_one_squared())
            <= unit_one_squared() + 0x80_0000 * d,
        -(u * r + 0x80_0000 * unit_one()) <= 0x100_0000 * (uu * unit_one() - u * r) <= u * r
            + 0x80_0000 * unit_one(),
        -(v * r + 0x80_0000 * unit_one()) <= 0x100_0000 * (vv * unit_one() - v * r) <= v * r
            + 0x80_0000 * unit_one(),
        -(w * r + 0x80_0000 * unit_one()) <= 0x100_0000 * (ww * unit_one() - w * r) <= w * r
            + 0x80_0000 * unit_one(),
    ensures
        -unit_one() <= 100000 * (uu + vv + ww - unit_one()) <= unit_one(),
{
    let k = 0x100_0000int;
    let p = 0x80_0000int;
    let z = unit_one();
    let q = unit_one_squared();
    let s = u + v + w;
    let t = uu + vv + ww;
    let a = s * r;
    assert(a == u * r + v * r + w * r) by (nonlinear_arith)
        requires
            a == (u + v + w) * r,
    ;
    // the three products together
    let y = t * z;
    assert(-(a + 3 * p * z) <= k * (y - a) <= a + 3 * p * z);
    // times the determinant
    let x1 = y * d;
    let x2 = a * d;
    let x5 = z * d;
    assert(-(x2 + 3 * p * x5) <= k * (x1 - x2) <= x2 + 3 * p * x5) by (nonlinear_arith)
        requires
            -(a + 3 * p * z) <= k * (y - a) <= a + 3 * p * z,
            d > 0,
            x1 == y * d,
            x2 == a * d,
            x5 == z * d,
    ;
    // the reciprocal
    let rd = r * d;
    assert(-5 * q <= k * (rd - q) <= 5 * q);
    let x3 = s * q;
    assert(x2 == s * rd) by (nonlinear_arith)
        requires
            x2 == (s * r) * d,
            rd == r * d,
    ;
    assert(-5 * x3 <= k * (x2 - x3) <= 5 * x3) by (nonlinear_arith)
        requires
            -5 * q <= k * (rd - q) <= 5 * q,
            s >= 0,
            x2 == s * rd,
            x3 == s * q,
    ;
    // the determinant against the exact sum
    let x4 = q * d;
    assert(x4 == z * x5) by (nonlinear_arith)
        requires
            x4 == q * d,
            x5 == z * d,
            q == z * z,
    ;
    assert(-x4 <= 100000 * (x1 - x4) <= x4);
    assert(x1 == t * x5) by (nonlinear_arith)
        requires
            x1 == (t * z) * d,
            x5 == z * d,
    ;
    assert(x5 > 0) by (nonlinear_arith)
        requires
            x5 == z * d,
            z > 0,
            d > 0,
    ;
    let over = 100000 * (t - z) - z;
    let under = 100000 * (t - z) + z;
    assert(over * x5 == 100000 * (x1 - x4) - x4 && under * x5 == 100000 * (x1 - x4) + x4)
        by (nonlinear_arith)
        requires
            x1 == t * x5,
            x4 == z * x5,
            over == 100000 * (t - z) - z,
            under == 100000 * (t - z) + z,
    ;
    assert(over <= 0 && under >= 0) by (nonlinear_arith)
        requires
            over * x5 <= 0,
            under * x5 >= 0,
            x5 > 0,
    ;
}

} // verus!
