//! Rounding to nearest, ties to even: what it means, and the integer routine
//! that does it.
//!
//! The number to round is a quotient of two naturals, counted in units of the
//! format. Its binade fixes how many low bits the format cannot keep; the
//! quotient is then rounded to a whole number of last places.

use vstd::prelude::*;
use vstd::arithmetic::power2::{
    pow2, lemma_pow2_pos, lemma_pow2_unfold, lemma_pow2_adds, lemma_pow2_strictly_increases,
    lemma2_to64,
};
use vstd::arithmetic::div_mod::{
    lemma_fundamental_div_mod, lemma_fundamental_div_mod_converse, lemma_div_denominator,
    lemma_breakdown, lemma_basic_div, lemma_small_mod,
};
use crate::format::{Format, mag, significand, scale, lemma_mag_bounds, lemma_mag_small};
use crate::power::{lemma_pow2_increases, pow2_u128};

verus! {

/// How many times a whole number must be halved to come below twice the
/// radix: zero for subnormals and the first binade, one more for each binade
/// above.
pub open spec fn binade(q: nat, fmt: Format) -> nat
    decreases q,
{
    if q < 2 * fmt.radix() {
        0
    } else {
        1 + binade(q / 2, fmt)
    }
}

/// The whole number nearest to `n / d`; of two equally near, the even one.
pub open spec fn nearest_even(n: nat, d: nat) -> nat {
    let q = n / d;
    let r = n % d;
    if 2 * r < d || (2 * r == d && q % 2 == 0) {
        q
    } else {
        q + 1
    }
}

/// The magnitude pattern that `n / d` units round to: nearest, ties to even,
/// infinity from the overflow threshold on.
pub open spec fn round_mag(n: nat, d: nat, fmt: Format) -> nat {
    let e = binade(n / d, fmt);
    let m = e * fmt.radix() + nearest_even(n, d * pow2(e));
    if m >= fmt.inf() {
        fmt.inf()
    } else {
        m
    }
}

/// The magnitude pattern that `num / den * 2^e` units round to.
pub open spec fn round_scaled(num: nat, den: nat, e: int, fmt: Format) -> nat {
    if e >= 0 {
        round_mag(num * pow2(e as nat), den, fmt)
    } else {
        round_mag(num, den * pow2((-e) as nat), fmt)
    }
}

/// Zero rounds to zero.
pub proof fn lemma_round_mag_zero(d: nat, fmt: Format)
    requires
        d > 0,
    ensures
        round_mag(0, d, fmt) == 0,
{
    lemma2_to64();
    lemma_basic_div(0, d as int);
    lemma_small_mod(0, d);
    assert(binade(0, fmt) == 0);
    assert(d * pow2(0) == d) by (nonlinear_arith)
        requires
            pow2(0) == 1,
    ;
    assert(nearest_even(0, d) == 0);
}

/// The binade of a number between `radix * 2^e` and twice that is `e`.
pub proof fn lemma_binade_is(q: nat, e: nat, fmt: Format)
    requires
        e >= 1,
        fmt.radix() * pow2(e) <= q < 2 * fmt.radix() * pow2(e),
    ensures
        binade(q, fmt) == e,
    decreases e,
{
    let p = fmt.radix();
    let h = pow2((e - 1) as nat);
    lemma_pow2_unfold(e);
    lemma_pow2_pos((e - 1) as nat);
    assert(p * (2 * h) == 2 * (p * h)) by (nonlinear_arith);
    assert(2 * p * (2 * h) == 2 * (2 * p * h)) by (nonlinear_arith);
    assert(p * h >= p) by (nonlinear_arith)
        requires
            h >= 1,
    ;
    assert(q >= 2 * p);
    if e == 1 {
        lemma2_to64();
        assert(p * h == p) by (nonlinear_arith)
            requires
                h == 1,
        ;
        assert(2 * p * h == 2 * p) by (nonlinear_arith)
            requires
                h == 1,
        ;
        assert(q / 2 < 2 * p);
        assert(binade(q / 2, fmt) == 0);
    } else {
        lemma_binade_is(q / 2, (e - 1) as nat, fmt);
    }
}

/// Scaling numerator and denominator alike changes neither the quotient nor,
/// but for the scale, the remainder.
pub proof fn lemma_div_mod_scale(n: nat, d: nat, c: nat)
    requires
        d > 0,
        c > 0,
    ensures
        d * c > 0,
        (n * c) / (d * c) == n / d,
        (n * c) % (d * c) == (n % d) * c,
{
    let q = n / d;
    let r = n % d;
    lemma_fundamental_div_mod(n as int, d as int);
    assert(n * c == q * (d * c) + r * c && 0 <= r * c < d * c) by (nonlinear_arith)
        requires
            n == d * q + r,
            0 <= r < d,
            c > 0,
    ;
    lemma_fundamental_div_mod_converse((n * c) as int, (d * c) as int, q as int, (r * c) as int);
}

pub proof fn lemma_nearest_even_scale(n: nat, d: nat, c: nat)
    requires
        d > 0,
        c > 0,
    ensures
        nearest_even(n * c, d * c) == nearest_even(n, d),
{
    lemma_div_mod_scale(n, d, c);
    let r = n % d;
    assert((2 * (r * c) < d * c <==> 2 * r < d) && (2 * (r * c) == d * c <==> 2 * r == d))
        by (nonlinear_arith)
        requires
            c > 0,
    ;
}

/// Rounding sees the quotient only.
pub proof fn lemma_round_mag_scale(n: nat, d: nat, c: nat, fmt: Format)
    requires
        d > 0,
        c > 0,
    ensures
        round_mag(n * c, d * c, fmt) == round_mag(n, d, fmt),
{
    lemma_div_mod_scale(n, d, c);
    let e = binade(n / d, fmt);
    let s = pow2(e);
    lemma_pow2_pos(e);
    assert((d * c) * s == (d * s) * c && d * s > 0) by (nonlinear_arith)
        requires
            d > 0,
            s > 0,
    ;
    lemma_nearest_even_scale(n, d * s, c);
}

/// A quotient `q`, inexact or not, without its `k` low bits, which decide
/// against one half whether the rest goes up by one.
pub open spec fn drop_low_bits(q: nat, k: nat, inexact: bool) -> nat {
    let m = q / pow2(k);
    let low = q % pow2(k);
    let half = pow2((k - 1) as nat);
    if low > half || (low == half && (inexact || m % 2 == 1)) {
        m + 1
    } else {
        m
    }
}

/// Rounding `num / den / 2^k` from the quotient `num / den`: the `k` low bits
/// of the quotient against one half, with a remainder breaking the tie upward.
pub proof fn lemma_nearest_even_shift(num: nat, den: nat, k: nat)
    requires
        den > 0,
        k >= 1,
    ensures
        nearest_even(num, den * pow2(k)) == drop_low_bits(num / den, k, num % den != 0),
{
    let q = num / den;
    let rem = num % den;
    let pk = pow2(k);
    let half = pow2((k - 1) as nat);
    let low = q % pk;
    lemma_pow2_pos(k);
    lemma_pow2_pos((k - 1) as nat);
    lemma_pow2_unfold(k);
    lemma_div_denominator(num as int, den as int, pk as int);
    lemma_breakdown(num as int, den as int, pk as int);
    let r = num % (den * pk);
    assert(r == den * low + rem);
    assert(den * pk == 2 * (den * half)) by (nonlinear_arith)
        requires
            pk == 2 * half,
    ;
    if low > half {
        assert(den * low >= den * half + den) by (nonlinear_arith)
            requires
                low >= half + 1,
        ;
    } else if low < half {
        assert(den * low + den <= den * half) by (nonlinear_arith)
            requires
                low + 1 <= half,
        ;
    } else {
        assert(den * low == den * half);
    }
}

/// Powers of two on both sides of the quotient come to one power of two
/// beside it.
pub proof fn lemma_round_scaled_split(num: nat, den: nat, x: nat, y: nat, fmt: Format)
    requires
        den > 0,
    ensures
        round_scaled(num, den, x - y, fmt) == round_mag(num * pow2(x), den * pow2(y), fmt),
{
    lemma_pow2_pos(x);
    lemma_pow2_pos(y);
    if x >= y {
        let e = (x - y) as nat;
        lemma_pow2_adds(e, y);
        assert(num * pow2(x) == (num * pow2(e)) * pow2(y)) by (nonlinear_arith)
            requires
                pow2(x) == pow2(e) * pow2(y),
        ;
        lemma_round_mag_scale(num * pow2(e), den, pow2(y), fmt);
    } else {
        let j = (y - x) as nat;
        lemma_pow2_adds(j, x);
        lemma_pow2_pos(j);
        assert(den * pow2(y) == (den * pow2(j)) * pow2(x) && den * pow2(j) > 0) by (nonlinear_arith)
            requires
                pow2(y) == pow2(j) * pow2(x),
                den > 0,
                pow2(j) > 0,
        ;
        lemma_round_mag_scale(num, den * pow2(j), pow2(x), fmt);
    }
}

/// A number of the format rounds to itself.
pub proof fn lemma_round_exact(m: nat, fmt: Format)
    requires
        m <= fmt.inf(),
    ensures
        round_mag(mag(m, fmt), 1, fmt) == m,
{
    let p = fmt.radix();
    let g = significand(m, fmt);
    let s = scale(m, fmt);
    let ps = pow2(s);
    let x = mag(m, fmt);
    lemma2_to64();
    lemma_pow2_pos(s);
    lemma_mag_bounds(m, fmt);
    assert(x / 1 == x);
    if m < 2 * p {
        lemma_mag_small(m, fmt);
        assert(binade(x, fmt) == 0);
        assert(1 * pow2(0) == 1);
        assert(nearest_even(x, 1) == x);
    } else {
        assert(g >= p && s >= 1 && m == (s + 1) * p + (g - p)) by {
            match fmt {
                Format::Single => {},
                Format::Double => {},
            }
        }
        assert(2 * p * ps == 2 * (p * ps)) by (nonlinear_arith);
        lemma_binade_is(x, s, fmt);
        assert(1 * ps == ps);
        assert(x == g * ps + 0);
        lemma_fundamental_div_mod_converse(x as int, ps as int, g as int, 0);
        assert(nearest_even(x, ps) == g);
        assert(s * p + g == m) by (nonlinear_arith)
            requires
                m == (s + 1) * p + (g - p),
        ;
    }
}

/// What is added to or taken from a number is lost in rounding when it is
/// under a quarter of the number's last place.
pub proof fn lemma_round_absorbs(m: nat, y: nat, fmt: Format)
    requires
        m < fmt.inf(),
        0 < y,
        4 * y < pow2(scale(m, fmt)),
    ensures
        y < mag(m, fmt),
        round_mag(mag(m, fmt) + y, 1, fmt) == m,
        round_mag((mag(m, fmt) - y) as nat, 1, fmt) == m,
{
    let p = fmt.radix();
    let g = significand(m, fmt);
    let s = scale(m, fmt);
    let ps = pow2(s);
    let x = mag(m, fmt);
    lemma2_to64();
    assert(s >= 3) by {
        if s < 3 {
            lemma_pow2_increases(s, 2);
        }
    }
    let h = pow2((s - 1) as nat);
    lemma_pow2_unfold(s);
    lemma_pow2_pos((s - 1) as nat);
    lemma_mag_bounds(m, fmt);
    assert(g >= p && g < 2 * p && m == (s + 1) * p + (g - p)) by {
        match fmt {
            Format::Single => {},
            Format::Double => {},
        }
    }
    assert(s * p + g == m) by (nonlinear_arith)
        requires
            m == (s + 1) * p + (g - p),
    ;
    assert(x >= ps) by (nonlinear_arith)
        requires
            x == g * ps,
            g >= 1,
            ps >= 0,
    ;
    assert(1 * ps == ps && 1 * h == h);
    // upward
    {
        let up = x + y;
        assert(up / 1 == up);
        assert(p * ps <= up < 2 * p * ps) by (nonlinear_arith)
            requires
                up == g * ps + y,
                p <= g < 2 * p,
                0 < y < ps,
        ;
        lemma_binade_is(up, s, fmt);
        lemma_fundamental_div_mod_converse(up as int, ps as int, g as int, y as int);
        assert(nearest_even(up, ps) == g);
    }
    // downward
    let down = (x - y) as nat;
    assert(down / 1 == down);
    if g > p {
        assert(down == (g - 1) * ps + (ps - y) && p * ps <= down < 2 * p * ps) by (nonlinear_arith)
            requires
                down == g * ps - y,
                p < g < 2 * p,
                0 < 4 * y < ps,
        ;
        lemma_binade_is(down, s, fmt);
        lemma_fundamental_div_mod_converse(down as int, ps as int, g - 1, ps - y);
        assert(nearest_even(down, ps) == g);
    } else {
        assert(down == (2 * p - 1) * h + (h - y) && p * h <= down < 2 * p * h) by (nonlinear_arith)
            requires
                down == p * ps - y,
                ps == 2 * h,
                0 < 4 * y < ps,
                p >= 1,
        ;
        lemma_binade_is(down, (s - 1) as nat, fmt);
        lemma_fundamental_div_mod_converse(down as int, h as int, 2 * p - 1, h - y);
        assert(nearest_even(down, h) == 2 * p);
        assert((s - 1) * p + 2 * p == s * p + p) by (nonlinear_arith);
    }
}

/// Of two quotients the smaller has the smaller whole part.
pub proof fn lemma_floor_increases(n1: nat, d1: nat, n2: nat, d2: nat)
    requires
        d1 > 0,
        d2 > 0,
        n1 * d2 <= n2 * d1,
    ensures
        n1 / d1 <= n2 / d2,
{
    let q1 = n1 / d1;
    let q2 = n2 / d2;
    lemma_fundamental_div_mod(n1 as int, d1 as int);
    lemma_fundamental_div_mod(n2 as int, d2 as int);
    if q1 > q2 {
        assert(n1 * d2 >= d1 * d2 * (q2 + 1)) by (nonlinear_arith)
            requires
                n1 >= d1 * q1,
                q1 >= q2 + 1,
                d1 > 0,
                d2 > 0,
        ;
        assert(n2 * d1 < d1 * d2 * (q2 + 1)) by (nonlinear_arith)
            requires
                n2 < d2 * q2 + d2,
                d1 > 0,
        ;
    }
}

/// Rounding to a whole number keeps the order.
pub proof fn lemma_nearest_even_increases(n1: nat, d1: nat, n2: nat, d2: nat)
    requires
        d1 > 0,
        d2 > 0,
        n1 * d2 <= n2 * d1,
    ensures
        nearest_even(n1, d1) <= nearest_even(n2, d2),
{
    let q1 = n1 / d1;
    let q2 = n2 / d2;
    let r1 = n1 % d1;
    let r2 = n2 % d2;
    lemma_floor_increases(n1, d1, n2, d2);
    lemma_fundamental_div_mod(n1 as int, d1 as int);
    lemma_fundamental_div_mod(n2 as int, d2 as int);
    if q1 == q2 {
        assert(r1 * d2 <= r2 * d1) by (nonlinear_arith)
            requires
                n1 == d1 * q1 + r1,
                n2 == d2 * q1 + r2,
                n1 * d2 <= n2 * d1,
        ;
        if 2 * r2 < d2 {
            assert(2 * r1 < d1) by (nonlinear_arith)
                requires
                    r1 * d2 <= r2 * d1,
                    2 * r2 < d2,
                    d1 > 0,
                    d2 > 0,
                    r1 >= 0,
            ;
        } else if 2 * r2 == d2 {
            assert(2 * r1 <= d1) by (nonlinear_arith)
                requires
                    r1 * d2 <= r2 * d1,
                    2 * r2 == d2,
                    d1 > 0,
                    d2 > 0,
            ;
        }
    }
}

/// A larger whole number has no smaller binade.
pub proof fn lemma_binade_increases(q1: nat, q2: nat, fmt: Format)
    requires
        q1 <= q2,
    ensures
        binade(q1, fmt) <= binade(q2, fmt),
    decreases q2,
{
    if q2 >= 2 * fmt.radix() && q1 >= 2 * fmt.radix() {
        lemma_binade_increases(q1 / 2, q2 / 2, fmt);
    }
}

/// A whole number lies in its binade.
pub proof fn lemma_binade_bounds(q: nat, fmt: Format)
    ensures
        q < 2 * fmt.radix() * pow2(binade(q, fmt)),
        binade(q, fmt) >= 1 ==> fmt.radix() * pow2(binade(q, fmt)) <= q,
    decreases q,
{
    let p = fmt.radix();
    lemma2_to64();
    if q < 2 * p {
        assert(2 * p * pow2(0) == 2 * p);
    } else {
        let e = binade(q / 2, fmt);
        let h = pow2(e);
        lemma_binade_bounds(q / 2, fmt);
        lemma_pow2_unfold(e + 1);
        assert(2 * p * (2 * h) == 2 * (2 * p * h) && p * (2 * h) == 2 * (p * h)) by (nonlinear_arith);
        if e == 0 {
            assert(p * h == p);
        }
    }
}

/// The rounded significand lies in its binade too: between the radix, above
/// the first binade, and twice the radix.
pub proof fn lemma_rounded_significand(n: nat, d: nat, fmt: Format)
    requires
        d > 0,
    ensures
        nearest_even(n, d * pow2(binade(n / d, fmt))) <= 2 * fmt.radix(),
        binade(n / d, fmt) >= 1 ==> fmt.radix() <= nearest_even(n, d * pow2(binade(n / d, fmt))),
{
    let e = binade(n / d, fmt);
    let pe = pow2(e);
    lemma_pow2_pos(e);
    lemma_binade_bounds(n / d, fmt);
    lemma_div_denominator(n as int, d as int, pe as int);
    assert(2 * fmt.radix() * pe == (2 * fmt.radix()) * pe);
    if e >= 1 {
        lemma_div_bounds(n / d, pe, fmt.radix(), 2 * fmt.radix());
    } else {
        lemma_div_bounds(n / d, pe, 0, 2 * fmt.radix());
    }
}

/// Rounding keeps the order: of two quotients the smaller rounds to no larger
/// a pattern.
pub proof fn lemma_round_mag_increases(n1: nat, d1: nat, n2: nat, d2: nat, fmt: Format)
    requires
        d1 > 0,
        d2 > 0,
        n1 * d2 <= n2 * d1,
    ensures
        round_mag(n1, d1, fmt) <= round_mag(n2, d2, fmt),
{
    let p = fmt.radix();
    let e1 = binade(n1 / d1, fmt);
    let e2 = binade(n2 / d2, fmt);
    lemma_floor_increases(n1, d1, n2, d2);
    lemma_binade_increases(n1 / d1, n2 / d2, fmt);
    lemma_rounded_significand(n1, d1, fmt);
    lemma_rounded_significand(n2, d2, fmt);
    if e1 == e2 {
        let pe = pow2(e1);
        lemma_pow2_pos(e1);
        assert(n1 * (d2 * pe) <= n2 * (d1 * pe) && d1 * pe > 0 && d2 * pe > 0) by (nonlinear_arith)
            requires
                n1 * d2 <= n2 * d1,
                pe > 0,
                d1 > 0,
                d2 > 0,
        ;
        lemma_nearest_even_increases(n1, d1 * pe, n2, d2 * pe);
    } else {
        assert(e1 * p + 2 * p <= e2 * p + p) by (nonlinear_arith)
            requires
                e1 + 1 <= e2,
                p >= 0,
        ;
    }
}

/// The value of the pattern made of a binade and a significand in it.
pub proof fn lemma_mag_of_binade(e: nat, g: nat, fmt: Format)
    requires
        g <= 2 * fmt.radix(),
        e >= 1 ==> g >= fmt.radix(),
    ensures
        mag(e * fmt.radix() + g, fmt) == g * pow2(e),
{
    let p = fmt.radix();
    let m = e * p + g;
    lemma2_to64();
    lemma_pow2_unfold(e + 1);
    match fmt {
        Format::Single => {
            assert(m == e * 0x80_0000 + g);
        },
        Format::Double => {
            assert(m == e * 0x10_0000_0000_0000 + g);
        },
    }
    if g == 2 * p {
        assert(significand(m, fmt) == p);
        assert(scale(m, fmt) == e + 1);
        assert(p * (2 * pow2(e)) == (2 * p) * pow2(e)) by (nonlinear_arith);
    } else if e == 0 {
        lemma_mag_small(m, fmt);
        assert(g * 1 == g);
    } else {
        assert(significand(m, fmt) == g);
        assert(scale(m, fmt) == e);
    }
}

/// Rounding to a whole number moves a quotient by half a unit at most.
pub proof fn lemma_nearest_even_error(n: nat, d: nat)
    requires
        d > 0,
    ensures
        -(d as int) <= 2 * (nearest_even(n, d) * d - n) <= d,
{
    let q = n / d;
    let r = n % d;
    lemma_fundamental_div_mod(n as int, d as int);
    assert((q + 1) * d == q * d + d && q * d == d * q) by (nonlinear_arith);
}

/// Rounding moves a quotient by half a last place at most: by half a unit
/// at most in the first binade, and above it by no more than the quotient
/// over twice the radix.
pub proof fn lemma_round_error(n: nat, d: nat, fmt: Format)
    requires
        d > 0,
        round_mag(n, d, fmt) < fmt.inf(),
    ensures
        ({
            let e = binade(n / d, fmt);
            let err = mag(round_mag(n, d, fmt), fmt) * d - n;
            &&& -(d * pow2(e)) <= 2 * err <= d * pow2(e)
            &&& e >= 1 ==> -(n as int) <= 2 * fmt.radix() * err <= n
            &&& e == 0 ==> -(d as int) <= 2 * err <= d
        }),
{
    let p = fmt.radix();
    let e = binade(n / d, fmt);
    let pe = pow2(e);
    let big_d = d * pe;
    let g = nearest_even(n, big_d);
    let m = round_mag(n, d, fmt);
    lemma_pow2_pos(e);
    lemma2_to64();
    assert(big_d > 0) by (nonlinear_arith)
        requires
            big_d == d * pe,
            d > 0,
            pe > 0,
    ;
    lemma_rounded_significand(n, d, fmt);
    lemma_mag_of_binade(e, g, fmt);
    lemma_nearest_even_error(n, big_d);
    assert(m == e * p + g);
    assert(mag(m, fmt) * d == g * big_d) by (nonlinear_arith)
        requires
            mag(m, fmt) == g * pe,
            big_d == d * pe,
    ;
    if e >= 1 {
        lemma_binade_bounds(n / d, fmt);
        lemma_fundamental_div_mod(n as int, d as int);
        assert(p * big_d <= n) by (nonlinear_arith)
            requires
                p * pe <= n / d,
                n == d * (n / d) + n % d,
                n % d >= 0,
                big_d == d * pe,
                d > 0,
        ;
        let err = g * big_d - n;
        assert(-(n as int) <= 2 * p * err <= n) by (nonlinear_arith)
            requires
                -(big_d as int) <= 2 * err <= big_d,
                p * big_d <= n,
                p > 0,
        ;
    } else {
        assert(big_d == d) by (nonlinear_arith)
            requires
                big_d == d * pe,
                pe == 1,
        ;
    }
}

/// A quotient lies between the bounds that its numerator lies between.
pub proof fn lemma_div_bounds(n: nat, d: nat, lo: nat, hi: nat)
    requires
        d > 0,
        lo * d <= n < hi * d,
    ensures
        lo <= n / d < hi,
{
    let q = n / d;
    let r = n % d;
    lemma_fundamental_div_mod(n as int, d as int);
    assert(lo <= q < hi) by (nonlinear_arith)
        requires
            n == d * q + r,
            0 <= r < d,
            lo * d <= n < hi * d,
    ;
}

/// The binade of `num * 2^a / (den * 2^b)` from the bit length of `num / den`.
pub proof fn lemma_binade_of_scaled(num: nat, den: nat, a: nat, b: nat, len: nat, fmt: Format)
    requires
        den > 0,
        len >= 1,
        pow2((len - 1) as nat) <= num / den < pow2(len),
    ensures
        den * pow2(b) > 0,
        ({
            let t = len - 1 + a - b - fmt.frac_bits();
            binade((num * pow2(a)) / (den * pow2(b)), fmt) == if t > 0 {
                t
            } else {
                0
            }
        }),
{
    let q = num / den;
    let r = num % den;
    let p = fmt.radix();
    let pa = pow2(a);
    let pb = pow2(b);
    let l1 = pow2((len - 1) as nat);
    let l2 = pow2(len);
    let t = len - 1 + a - b - fmt.frac_bits();
    fmt.lemma_radix();
    lemma_pow2_pos(a);
    lemma_pow2_pos(b);
    lemma_pow2_unfold(len);
    lemma_fundamental_div_mod(num as int, den as int);
    assert(l1 * den <= num < l2 * den) by (nonlinear_arith)
        requires
            num == den * q + r,
            0 <= r < den,
            l1 <= q < l2,
    ;
    assert(l1 * pa * den <= num * pa < l2 * pa * den && den * pb > 0) by (nonlinear_arith)
        requires
            l1 * den <= num < l2 * den,
            pa > 0,
            pb > 0,
            den > 0,
    ;
    if t > 0 {
        let pt = pow2(t as nat);
        // radix * 2^t * 2^b == 2^(len-1) * 2^a
        lemma_pow2_adds(fmt.frac_bits(), t as nat);
        lemma_pow2_adds(fmt.frac_bits() + t as nat, b);
        lemma_pow2_adds((len - 1) as nat, a);
        assert(p * pt * pb == l1 * pa);
        assert((p * pt) * (den * pb) == l1 * pa * den && (2 * p * pt) * (den * pb) == l2 * pa
            * den) by (nonlinear_arith)
            requires
                p * pt * pb == l1 * pa,
                l2 == 2 * l1,
        ;
        lemma_div_bounds(num * pa, den * pb, p * pt, 2 * p * pt);
        lemma_binade_is((num * pa) / (den * pb), t as nat, fmt);
    } else {
        // 2^len * 2^a <= 2 * radix * 2^b
        lemma_pow2_adds(len, a);
        lemma_pow2_adds(fmt.frac_bits() + 1, b);
        lemma_pow2_increases(len + a, fmt.frac_bits() + 1 + b);
        assert(l2 * pa <= 2 * p * pb);
        assert(num * pa < (2 * p) * (den * pb)) by (nonlinear_arith)
            requires
                num * pa < l2 * pa * den,
                l2 * pa <= 2 * p * pb,
                den > 0,
        ;
        lemma_div_bounds(num * pa, den * pb, 0, 2 * p);
    }
}

/// Rounding `num / den * 2^e / 2^big_e` to a whole number: either low bits of
/// the quotient are dropped, or the quotient is exact and is scaled up.
pub proof fn lemma_nearest_of_scaled(num: nat, den: nat, e: int, big_e: nat)
    requires
        den > 0,
        big_e - e >= 1 || num % den == 0,
    ensures
        ({
            let k = big_e - e;
            let n = if e >= 0 {
                num * pow2(e as nat)
            } else {
                num
            };
            let d = if e >= 0 {
                den
            } else {
                den * pow2((-e) as nat)
            };
            nearest_even(n, d * pow2(big_e)) == if k >= 1 {
                drop_low_bits(num / den, k as nat, num % den != 0)
            } else {
                (num / den) * pow2((-k) as nat)
            }
        }),
{
    let k = big_e - e;
    let q = num / den;
    lemma_pow2_pos(big_e);
    if e < 0 {
        let j = (-e) as nat;
        lemma_pow2_adds(j, big_e);
        assert(den * pow2(j) * pow2(big_e) == den * pow2(k as nat)) by (nonlinear_arith)
            requires
                pow2(k as nat) == pow2(j) * pow2(big_e),
        ;
        lemma_nearest_even_shift(num, den, k as nat);
    } else if k >= 1 {
        let pe = pow2(e as nat);
        lemma_pow2_pos(e as nat);
        lemma_pow2_pos(k as nat);
        lemma_pow2_adds(k as nat, e as nat);
        assert(den * pow2(big_e) == (den * pow2(k as nat)) * pe && den * pow2(k as nat) > 0)
            by (nonlinear_arith)
            requires
                pow2(big_e) == pow2(k as nat) * pe,
                den > 0,
                pow2(k as nat) > 0,
        ;
        lemma_nearest_even_scale(num, den * pow2(k as nat), pe);
        lemma_nearest_even_shift(num, den, k as nat);
    } else {
        let j = (-k) as nat;
        let pj = pow2(j);
        let pb = pow2(big_e);
        lemma_pow2_adds(j, big_e);
        lemma_fundamental_div_mod(num as int, den as int);
        assert(num * pow2(e as nat) == (num * pj) * pb) by (nonlinear_arith)
            requires
                pow2(e as nat) == pj * pb,
        ;
        lemma_nearest_even_scale(num * pj, den, pb);
        assert(num * pj == (q * pj) * den + 0) by (nonlinear_arith)
            requires
                num == den * q,
        ;
        lemma_fundamental_div_mod_converse((num * pj) as int, den as int, (q * pj) as int, 0);
    }
}

/// The number of bits of `q`.
pub(crate) fn bit_length(q: u128) -> (len: u32)
    ensures
        q == 0 ==> len == 0,
        q > 0 ==> 1 <= len <= 128 && pow2((len - 1) as nat) <= q,
        q < pow2(len as nat),
{
    let mut v: u128 = q;
    let mut len: u32 = 0;
    proof {
        lemma2_to64();
    }
    while v > 0
        invariant
            len <= 128,
            v == q as nat / pow2(len as nat),
            len > 0 ==> pow2((len - 1) as nat) <= q,
            len == 0 ==> v == q,
        decreases v,
    {
        proof {
            let pl = pow2(len as nat);
            lemma_pow2_pos(len as nat);
            lemma_fundamental_div_mod(q as int, pl as int);
            assert(pl <= q) by (nonlinear_arith)
                requires
                    q == pl * v + q as nat % pl,
                    v >= 1,
                    pl > 0,
            ;
            if len == 128 {
                lemma2_to64();
                lemma_pow2_adds(64, 64);
                assert(false);
            }
            lemma_pow2_unfold((len + 1) as nat);
            lemma_div_denominator(q as int, pl as int, 2);
        }
        v = v / 2;
        len = len + 1;
    }
    proof {
        let pl = pow2(len as nat);
        lemma_pow2_pos(len as nat);
        lemma_fundamental_div_mod(q as int, pl as int);
        if len > 0 {
            lemma_pow2_pos((len - 1) as nat);
        }
    }
    len
}

/// Dropping `k` low bits of a number below `2^len` leaves it below
/// `2^s`, when `len <= k + s`.
pub proof fn lemma_shift_bound(q: nat, len: nat, k: nat, s: nat)
    requires
        q < pow2(len),
        len <= k + s,
    ensures
        q / pow2(k) < pow2(s),
{
    lemma_pow2_increases(len, k + s);
    lemma_pow2_adds(k, s);
    lemma_pow2_pos(k);
    assert(pow2(k) * pow2(s) == pow2(s) * pow2(k)) by (nonlinear_arith);
    lemma_div_bounds(q, pow2(k), 0, pow2(s));
}

/// Rounds `num / den * 2^e` units to the nearest magnitude pattern of the
/// format, ties to even. An inexact quotient must reach past the first binade,
/// so that its remainder can only break a tie.
pub(crate) fn round_ratio(num: u128, den: u128, e: i64, fmt: Format) -> (r: u64)
    requires
        den > 0,
        num / den < pow2(120),
        -8192 <= e <= 8192,
        num % den == 0 || num / den >= 2 * fmt.radix(),
    ensures
        r == round_scaled(num as nat, den as nat, e as int, fmt),
        r <= fmt.inf(),
{
    let q: u128 = num / den;
    let rem: u128 = num % den;
    let ghost a: nat = if e >= 0 { e as nat } else { 0 };
    let ghost b: nat = if e >= 0 { 0 } else { (-e) as nat };
    let ghost n: nat = num as nat * pow2(a);
    let ghost d: nat = den as nat * pow2(b);
    proof {
        lemma2_to64();
        lemma_pow2_pos(b);
        fmt.lemma_radix();
        assert(num as nat * pow2(0) == num && den as nat * pow2(0) == den) by (nonlinear_arith)
            requires
                pow2(0) == 1,
        ;
        assert(round_scaled(num as nat, den as nat, e as int, fmt) == round_mag(n, d, fmt));
        assert(d > 0) by (nonlinear_arith)
            requires
                d == den as nat * pow2(b),
                den > 0,
                pow2(b) > 0,
        ;
    }
    if q == 0 {
        proof {
            lemma_fundamental_div_mod(num as int, den as int);
            assert(den * 0 == 0);
            assert(num == 0);
            assert(n == 0) by (nonlinear_arith)
                requires
                    n == num as nat * pow2(a),
                    num == 0,
            ;
            lemma_round_mag_zero(d, fmt);
        }
        return 0;
    }
    let len: u32 = bit_length(q);
    let p: i64 = fmt.frac_bits_u32() as i64;
    let radix: u64 = fmt.radix_u64();
    let inf: u64 = fmt.inf_u64();
    let exp_max: u64 = fmt.exp_max_u64();
    proof {
        if len > 120 {
            lemma_pow2_increases(120, (len - 1) as nat);
        }
    }
    let t: i64 = (len as i64 - 1) + e - p;
    let big_e: i64 = if t > 0 { t } else { 0 };
    proof {
        lemma_binade_of_scaled(num as nat, den as nat, a, b, len as nat, fmt);
        assert(binade(n / d, fmt) == big_e);
    }
    if big_e >= exp_max as i64 {
        proof {
            assert(big_e * radix >= exp_max * radix) by (nonlinear_arith)
                requires
                    big_e >= exp_max,
                    radix >= 0,
            ;
        }
        return inf;
    }
    let k: i64 = big_e - e;
    proof {
        if rem != 0 && len <= p + 1 {
            lemma_pow2_increases(len as nat, (p + 1) as nat);
        }
        lemma_nearest_of_scaled(num as nat, den as nat, e as int, big_e as nat);
    }
    let mu: u128;
    if k >= 122 {
        proof {
            lemma_pow2_strictly_increases(120, (k - 1) as nat);
            lemma_pow2_strictly_increases(120, k as nat);
            lemma_basic_div(q as int, pow2(k as nat) as int);
            lemma_small_mod(q as nat, pow2(k as nat));
            assert(drop_low_bits(q as nat, k as nat, rem != 0) == 0);
        }
        return 0;
    } else if k >= 1 {
        let pk: u128 = pow2_u128(k as u32);
        let m: u128 = q / pk;
        let low: u128 = q % pk;
        let half: u128 = pk / 2;
        proof {
            lemma_pow2_unfold(k as nat);
            lemma_shift_bound(q as nat, len as nat, k as nat, (p + 1) as nat);
        }
        let up: bool = low > half || (low == half && (rem != 0 || m % 2 == 1));
        mu = if up { m + 1 } else { m };
    } else {
        let j: u32 = (-k) as u32;
        let pj: u128 = pow2_u128(j);
        proof {
            lemma_pow2_adds(len as nat, j as nat);
            lemma_pow2_increases((len + j) as nat, (p + 1) as nat);
            assert(q * pj < pow2(len as nat) * pow2(j as nat)) by (nonlinear_arith)
                requires
                    q < pow2(len as nat),
                    pj == pow2(j as nat),
                    pj > 0,
            ;
        }
        mu = q * pj;
    }
    proof {
        assert(mu <= 2 * radix);
        assert(big_e * radix <= 2046 * 0x10_0000_0000_0000) by (nonlinear_arith)
            requires
                0 <= big_e <= 2046,
                0 <= radix <= 0x10_0000_0000_0000,
        ;
    }
    let total: u128 = (big_e as u128) * (radix as u128) + mu;
    if total >= inf as u128 {
        inf
    } else {
        total as u64
    }
}

} // verus!
