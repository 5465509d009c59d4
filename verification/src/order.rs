//! How the operations keep order: a difference lies on the side of zero that
//! the order of its terms names, a product is ordered as the exact products
//! are, and widening loses nothing.

use vstd::prelude::*;
use vstd::arithmetic::power2::{pow2, lemma_pow2_pos, lemma_pow2_adds, lemma2_to64, lemma2_to64_rest};
use crate::format::{
    Format, sign_of, abs_bits, with_sign, is_pattern, is_nan, is_infinite, is_finite, significand,
    scale, mag, value, lemma_mag_zero, lemma_mag_increases,
};
use crate::rounding::{
    round_mag, lemma_round_mag_zero, lemma_round_mag_increases, lemma_round_mag_scale,
    lemma_round_exact,
};
use crate::ops::{negated_bits, product_bits, sum_bits, difference_bits, converted_bits};
use crate::facts::{
    is_negative, is_positive, lemma_with_sign, lemma_sign_of_number, lemma_negated,
    lemma_sum_finite,
};
use crate::power::{digits, lemma_digits, lemma_pow2_increases};

verus! {

/// A difference of two numbers that is negative has the smaller term first,
/// and one that is positive has the larger term first.
pub proof fn lemma_difference_order(x: nat, y: nat, fmt: Format)
    requires
        is_pattern(x, fmt),
        is_pattern(y, fmt),
        !is_nan(x, fmt),
        !is_nan(y, fmt),
    ensures
        is_negative(difference_bits(x, y, fmt), fmt) ==> value(x, fmt) < value(y, fmt),
        is_positive(difference_bits(x, y, fmt), fmt) ==> value(x, fmt) > value(y, fmt),
{
    let ny = negated_bits(y, fmt);
    fmt.lemma_layout();
    lemma_negated(y, fmt);
    if is_infinite(x, fmt) || is_infinite(y, fmt) {
        reveal(sum_bits);
        lemma_with_sign(false, fmt.quiet_nan(), fmt);
        lemma_sign_of_number(x, fmt);
        lemma_sign_of_number(ny, fmt);
        lemma_mag_zero(fmt.inf(), fmt);
        if is_finite(x, fmt) {
            lemma_mag_increases(abs_bits(x, fmt), fmt.inf(), fmt);
        }
        if is_finite(y, fmt) {
            lemma_mag_increases(abs_bits(y, fmt), fmt.inf(), fmt);
        }
    } else {
        lemma_sum_finite(x, ny, fmt);
    }
}

/// Conversion moves no number across zero.
pub proof fn lemma_converted_sign(d: nat, from: Format, to: Format)
    requires
        is_pattern(d, from),
    ensures
        is_pattern(converted_bits(d, from, to), to),
        is_negative(converted_bits(d, from, to), to) ==> is_negative(d, from),
        is_positive(converted_bits(d, from, to), to) ==> is_positive(d, from),
{
    reveal(converted_bits);
    from.lemma_layout();
    to.lemma_layout();
    let m = abs_bits(d, from);
    let rounded = round_mag(mag(m, from) * pow2(to.unit_exp()), pow2(from.unit_exp()), to);
    lemma_with_sign(false, to.quiet_nan(), to);
    lemma_with_sign(sign_of(d, from), to.inf(), to);
    lemma_with_sign(sign_of(d, from), rounded, to);
    lemma_sign_of_number(d, from);
    lemma_sign_of_number(converted_bits(d, from, to), to);
    if m == 0 {
        lemma_mag_zero(0, from);
        assert(0 * pow2(to.unit_exp()) == 0);
        lemma_pow2_pos(from.unit_exp());
        lemma_round_mag_zero(pow2(from.unit_exp()), to);
    }
}

/// The product of two signed numbers from their signs and magnitudes.
pub proof fn lemma_signed_product(sa: bool, ma: nat, sb: bool, mb: nat)
    ensures
        (if sa { -(ma as int) } else { ma as int }) * (if sb { -(mb as int) } else { mb as int })
            == if sa != sb {
            -((ma * mb) as int)
        } else {
            (ma * mb) as int
        },
{
    assert((-(ma as int)) * (-(mb as int)) == ma * mb) by (nonlinear_arith);
    assert((-(ma as int)) * (mb as int) == -(ma * mb)) by (nonlinear_arith);
    assert((ma as int) * (-(mb as int)) == -(ma * mb)) by (nonlinear_arith);
}

/// The value of the product of two finite numbers: the rounded magnitude
/// under the sign of the exact product.
pub proof fn lemma_product_value(a: nat, b: nat, fmt: Format)
    requires
        is_pattern(a, fmt),
        is_pattern(b, fmt),
        is_finite(a, fmt),
        is_finite(b, fmt),
    ensures
        is_pattern(product_bits(a, b, fmt), fmt),
        !is_nan(product_bits(a, b, fmt), fmt),
        ({
            let exact = mag(abs_bits(a, fmt), fmt) * mag(abs_bits(b, fmt), fmt);
            let rounded = mag(round_mag(exact, pow2(fmt.unit_exp()), fmt), fmt);
            let negative = sign_of(a, fmt) != sign_of(b, fmt);
            &&& value(a, fmt) * value(b, fmt) == if negative {
                -(exact as int)
            } else {
                exact as int
            }
            &&& value(product_bits(a, b, fmt), fmt) == if negative {
                -(rounded as int)
            } else {
                rounded as int
            }
        }),
{
    reveal(product_bits);
    let ma = mag(abs_bits(a, fmt), fmt);
    let mb = mag(abs_bits(b, fmt), fmt);
    let negative = sign_of(a, fmt) != sign_of(b, fmt);
    fmt.lemma_layout();
    lemma_with_sign(negative, round_mag(ma * mb, pow2(fmt.unit_exp()), fmt), fmt);
    lemma_signed_product(sign_of(a, fmt), ma, sign_of(b, fmt), mb);
}

/// Products of finite numbers are ordered as the exact products are: where
/// one rounded product is below another, so is the exact one.
pub proof fn lemma_product_order(a: nat, b: nat, c: nat, d: nat, fmt: Format)
    requires
        is_pattern(a, fmt),
        is_pattern(b, fmt),
        is_pattern(c, fmt),
        is_pattern(d, fmt),
        is_finite(a, fmt),
        is_finite(b, fmt),
        is_finite(c, fmt),
        is_finite(d, fmt),
    ensures
        value(product_bits(a, b, fmt), fmt) < value(product_bits(c, d, fmt), fmt) ==> value(a, fmt)
            * value(b, fmt) < value(c, fmt) * value(d, fmt),
{
    let unit = pow2(fmt.unit_exp());
    let x = mag(abs_bits(a, fmt), fmt) * mag(abs_bits(b, fmt), fmt);
    let y = mag(abs_bits(c, fmt), fmt) * mag(abs_bits(d, fmt), fmt);
    let rx = round_mag(x, unit, fmt);
    let ry = round_mag(y, unit, fmt);
    let sx = sign_of(a, fmt) != sign_of(b, fmt);
    let sy = sign_of(c, fmt) != sign_of(d, fmt);
    lemma_product_value(a, b, fmt);
    lemma_product_value(c, d, fmt);
    lemma_pow2_pos(fmt.unit_exp());
    let vx = value(product_bits(a, b, fmt), fmt);
    let vy = value(product_bits(c, d, fmt), fmt);
    let ex = value(a, fmt) * value(b, fmt);
    let ey = value(c, fmt) * value(d, fmt);
    if ex >= ey {
        if sx == sy {
            if sx {
                assert(x <= y);
                assert(x * unit <= y * unit) by (nonlinear_arith)
                    requires
                        x <= y,
                        unit > 0,
                ;
                lemma_round_mag_increases(x, unit, y, unit, fmt);
                if rx < ry {
                    lemma_mag_increases(rx, ry, fmt);
                }
                assert(mag(rx, fmt) <= mag(ry, fmt));
                assert(vx >= vy);
            } else {
                assert(y <= x);
                assert(y * unit <= x * unit) by (nonlinear_arith)
                    requires
                        y <= x,
                        unit > 0,
                ;
                lemma_round_mag_increases(y, unit, x, unit, fmt);
                if ry < rx {
                    lemma_mag_increases(ry, rx, fmt);
                }
                assert(mag(ry, fmt) <= mag(rx, fmt));
                assert(vx >= vy);
            }
        } else if sx {
            assert(x == 0 && y == 0);
            lemma_round_mag_zero(unit, fmt);
            assert(rx == 0 && ry == 0);
            lemma_mag_zero(0, fmt);
            assert(vx >= vy);
        } else {
            assert(vx >= 0);
            assert(vy <= 0);
        }
    }
}

/// A finite binary32 number widened to binary64 is the same number: as many
/// binary64 units as binary32 units times two to the 925th.
pub proof fn lemma_widened(a: nat)
    requires
        is_pattern(a, Format::Single),
        is_finite(a, Format::Single),
    ensures
        is_pattern(converted_bits(a, Format::Single, Format::Double), Format::Double),
        is_finite(converted_bits(a, Format::Single, Format::Double), Format::Double),
        value(converted_bits(a, Format::Single, Format::Double), Format::Double) == value(
            a,
            Format::Single,
        ) * pow2(925),
{
    reveal(converted_bits);
    let single = Format::Single;
    let double = Format::Double;
    let m = abs_bits(a, single);
    let exact = mag(m, single) * pow2(925);
    single.lemma_layout();
    double.lemma_layout();
    lemma2_to64();
    lemma2_to64_rest();
    lemma_pow2_adds(925, 149);
    lemma_pow2_pos(149);
    assert(mag(m, single) * pow2(1074) == exact * pow2(149)) by (nonlinear_arith)
        requires
            exact == mag(m, single) * pow2(925),
            pow2(1074) == pow2(925) * pow2(149),
    ;
    assert(1 * pow2(149) == pow2(149));
    lemma_round_mag_scale(exact, 1, pow2(149), double);
    let rounded = round_mag(exact, 1, double);
    assert(converted_bits(a, single, double) == with_sign(sign_of(a, single), rounded, double));
    if m == 0 {
        lemma_mag_zero(0, single);
        assert(exact == 0);
        lemma_round_mag_zero(1, double);
        lemma_mag_zero(0, double);
        lemma_with_sign(sign_of(a, single), 0, double);
    } else {
        let g = significand(m, single);
        let s = scale(m, single);
        assert(g > 0 && g < 0x100_0000 && s <= 253);
        lemma_digits(g);
        let l = digits(g);
        if l > 24 {
            lemma_pow2_increases(24, (l - 1) as nat);
        }
        let up = (53 - l) as nat;
        let big_g = g * pow2(up);
        let big_s = s + 872 + l;
        lemma_pow2_adds((l - 1) as nat, up);
        lemma_pow2_adds(l, up);
        lemma_pow2_pos(up);
        assert(pow2(52) <= big_g < pow2(53)) by (nonlinear_arith)
            requires
                big_g == g * pow2(up),
                pow2((l - 1) as nat) <= g < pow2(l),
                pow2(52) == pow2((l - 1) as nat) * pow2(up),
                pow2(53) == pow2(l) * pow2(up),
                pow2(up) > 0,
        ;
        let pat = ((big_s + 1) * 0x10_0000_0000_0000 + (big_g - 0x10_0000_0000_0000)) as nat;
        assert(significand(pat, double) == big_g);
        assert(scale(pat, double) == big_s);
        lemma_pow2_adds(up, big_s);
        lemma_pow2_adds(s, 925);
        assert(up + big_s == s + 925);
        assert(mag(pat, double) == exact) by (nonlinear_arith)
            requires
                mag(pat, double) == big_g * pow2(big_s),
                big_g == g * pow2(up),
                pow2(s + 925) == pow2(up) * pow2(big_s),
                pow2(s + 925) == pow2(s) * pow2(925),
                exact == (g * pow2(s)) * pow2(925),
        ;
        assert(pat < double.inf());
        lemma_round_exact(pat, double);
        lemma_with_sign(sign_of(a, single), pat, double);
    }
    assert(value(a, single) * pow2(925) == if sign_of(a, single) {
        -(exact as int)
    } else {
        exact as int
    }) by (nonlinear_arith)
        requires
            exact == mag(m, single) * pow2(925),
            value(a, single) == if sign_of(a, single) {
                -(mag(m, single) as int)
            } else {
                mag(m, single) as int
            },
    ;
}

/// The exact edge function of four finite numbers: `px * qy - py * qx`, in
/// squared units.
pub open spec fn exact_cross(px: nat, qy: nat, py: nat, qx: nat, fmt: Format) -> int {
    value(px, fmt) * value(qy, fmt) - value(py, fmt) * value(qx, fmt)
}

/// The computed edge function of four finite numbers, where it is negative or
/// positive, lies on the side of zero on which the exact one lies.
pub proof fn lemma_cross_sign(px: nat, qy: nat, py: nat, qx: nat, fmt: Format)
    requires
        is_pattern(px, fmt) && is_finite(px, fmt),
        is_pattern(qy, fmt) && is_finite(qy, fmt),
        is_pattern(py, fmt) && is_finite(py, fmt),
        is_pattern(qx, fmt) && is_finite(qx, fmt),
    ensures
        ({
            let computed = difference_bits(
                product_bits(px, qy, fmt),
                product_bits(py, qx, fmt),
                fmt,
            );
            &&& is_pattern(computed, fmt)
            &&& is_negative(computed, fmt) ==> exact_cross(px, qy, py, qx, fmt) < 0
            &&& is_positive(computed, fmt) ==> exact_cross(px, qy, py, qx, fmt) > 0
        }),
{
    let x = product_bits(px, qy, fmt);
    let y = product_bits(py, qx, fmt);
    lemma_product_value(px, qy, fmt);
    lemma_product_value(py, qx, fmt);
    lemma_difference_order(x, y, fmt);
    lemma_product_order(px, qy, py, qx, fmt);
    lemma_product_order(py, qx, px, qy, fmt);
    crate::facts::lemma_difference_mirrored(x, y, fmt);
}

/// The edge function computed in binary64 of four finite binary32 numbers and
/// narrowed again, where it is negative or positive, lies on the side of zero
/// on which the exact one lies.
pub proof fn lemma_wide_cross_sign(px: nat, qy: nat, py: nat, qx: nat)
    requires
        is_pattern(px, Format::Single) && is_finite(px, Format::Single),
        is_pattern(qy, Format::Single) && is_finite(qy, Format::Single),
        is_pattern(py, Format::Single) && is_finite(py, Format::Single),
        is_pattern(qx, Format::Single) && is_finite(qx, Format::Single),
    ensures
        ({
            let wide = difference_bits(
                product_bits(
                    converted_bits(px, Format::Single, Format::Double),
                    converted_bits(qy, Format::Single, Format::Double),
                    Format::Double,
                ),
                product_bits(
                    converted_bits(py, Format::Single, Format::Double),
                    converted_bits(qx, Format::Single, Format::Double),
                    Format::Double,
                ),
                Format::Double,
            );
            let computed = converted_bits(wide, Format::Double, Format::Single);
            &&& is_pattern(wide, Format::Double)
            &&& is_pattern(computed, Format::Single)
            &&& is_negative(computed, Format::Single) ==> exact_cross(px, qy, py, qx, Format::Single)
                < 0
            &&& is_positive(computed, Format::Single) ==> exact_cross(px, qy, py, qx, Format::Single)
                > 0
        }),
{
    let single = Format::Single;
    let double = Format::Double;
    let wide_px = converted_bits(px, single, double);
    let wide_qy = converted_bits(qy, single, double);
    let wide_py = converted_bits(py, single, double);
    let wide_qx = converted_bits(qx, single, double);
    lemma_widened(px);
    lemma_widened(qy);
    lemma_widened(py);
    lemma_widened(qx);
    lemma_cross_sign(wide_px, wide_qy, wide_py, wide_qx, double);
    let wide = difference_bits(
        product_bits(wide_px, wide_qy, double),
        product_bits(wide_py, wide_qx, double),
        double,
    );
    lemma_converted_sign(wide, double, single);
    let k = pow2(925) as int;
    lemma_pow2_pos(925);
    let a = value(px, single);
    let b = value(qy, single);
    let c = value(py, single);
    let d = value(qx, single);
    assert((a * k) * (b * k) - (c * k) * (d * k) == (a * b - c * d) * (k * k)) by (nonlinear_arith);
    assert(k * k > 0) by (nonlinear_arith)
        requires
            k > 0,
    ;
    let e = a * b - c * d;
    let kk = k * k;
    assert((e * kk < 0 ==> e < 0) && (e * kk > 0 ==> e > 0)) by (nonlinear_arith)
        requires
            kk > 0,
    ;
}

} // verus!
