use glam::Vec3;
use watertight::scalar::{Scalar, Wide};
use watertight::Vector3;

/// A small generator of bit patterns, so that the runs can be repeated.
struct Patterns {
    state: u64,
}

impl Patterns {
    fn new(seed: u64) -> Patterns {
        Patterns { state: seed }
    }

    fn next_u64(&mut self) -> u64 {
        self.state ^= self.state << 13;
        self.state ^= self.state >> 7;
        self.state ^= self.state << 17;
        self.state
    }

    /// Patterns of every class: any bits, numbers near one another, tiny
    /// ones, huge ones and the special patterns.
    fn next_single(&mut self) -> u32 {
        let r = self.next_u64();
        let bits = (r >> 32) as u32;
        match r % 8 {
            0 => bits,
            1 => (bits & 0x807f_ffff) | 0x3f80_0000,
            2 => (bits & 0x80ff_ffff) | 0x3f00_0000,
            3 => bits & 0x80ff_ffff,
            4 => (bits & 0x80ff_ffff) | 0x7f00_0000,
            5 => (bits & 0x8fff_ffff) | 0x3000_0000,
            6 => {
                let special = [
                    0u32, 0x8000_0000, 0x7f80_0000, 0xff80_0000, 0x7fc0_0000, 1, 0x8000_0001,
                    0x007f_ffff, 0x0080_0000, 0x7f7f_ffff, 0xff7f_ffff, 0x3f80_0000, 0x3400_0000,
                ];
                special[(bits % 13) as usize]
            }
            _ => (bits & 0x83ff_ffff) | 0x3c00_0000,
        }
    }

    fn next_double(&mut self) -> u64 {
        let r = self.next_u64();
        let s = self.next_u64();
        match r % 6 {
            0 => s,
            1 => (s & 0x800f_ffff_ffff_ffff) | 0x3ff0_0000_0000_0000,
            2 => s & 0x801f_ffff_ffff_ffff,
            3 => (s & 0x801f_ffff_ffff_ffff) | 0x7fe0_0000_0000_0000,
            4 => {
                let special = [
                    0u64,
                    0x8000_0000_0000_0000,
                    0x7ff0_0000_0000_0000,
                    0xfff0_0000_0000_0000,
                    0x7ff8_0000_0000_0000,
                    1,
                    0x000f_ffff_ffff_ffff,
                    0x0010_0000_0000_0000,
                    0x7fef_ffff_ffff_ffff,
                ];
                special[(s % 9) as usize]
            }
            _ => (s & 0x80ff_ffff_ffff_ffff) | 0x3f00_0000_0000_0000,
        }
    }
}

fn same_single(got: u32, want: f32) -> bool {
    if want.is_nan() {
        got == 0x7fc0_0000
    } else {
        got == want.to_bits()
    }
}

fn same_double(got: u64, want: f64) -> bool {
    if want.is_nan() {
        got == 0x7ff8_0000_0000_0000
    } else {
        got == want.to_bits()
    }
}

#[test]
fn scalar_sum_matches_the_machine() {
    let mut gen = Patterns::new(0x9e37_79b9_7f4a_7c15);
    for _ in 0..40000 {
        let a = gen.next_single();
        let b = gen.next_single();
        let got = Scalar::from_bits(a).plus(Scalar::from_bits(b)).to_bits();
        let want = f32::from_bits(a) + f32::from_bits(b);
        assert!(same_single(got, want), "{:#x} + {:#x}: {:#x} vs {:#x}", a, b, got, want.to_bits());
    }
}

#[test]
fn scalar_difference_matches_the_machine() {
    let mut gen = Patterns::new(0x1234_5678_9abc_def1);
    for _ in 0..40000 {
        let a = gen.next_single();
        let b = gen.next_single();
        let got = Scalar::from_bits(a).minus(Scalar::from_bits(b)).to_bits();
        let want = f32::from_bits(a) - f32::from_bits(b);
        assert!(same_single(got, want), "{:#x} - {:#x}: {:#x} vs {:#x}", a, b, got, want.to_bits());
    }
}

#[test]
fn scalar_product_matches_the_machine() {
    let mut gen = Patterns::new(0x0fed_cba9_8765_4321);
    for _ in 0..40000 {
        let a = gen.next_single();
        let b = gen.next_single();
        let got = Scalar::from_bits(a).times(Scalar::from_bits(b)).to_bits();
        let want = f32::from_bits(a) * f32::from_bits(b);
        assert!(same_single(got, want), "{:#x} * {:#x}: {:#x} vs {:#x}", a, b, got, want.to_bits());
    }
}

#[test]
fn scalar_quotient_matches_the_machine() {
    let mut gen = Patterns::new(0x55aa_55aa_1357_9bdf);
    for _ in 0..40000 {
        let a = gen.next_single();
        let b = gen.next_single();
        let got = Scalar::from_bits(a).over(Scalar::from_bits(b)).to_bits();
        let want = f32::from_bits(a) / f32::from_bits(b);
        assert!(same_single(got, want), "{:#x} / {:#x}: {:#x} vs {:#x}", a, b, got, want.to_bits());
    }
}

#[test]
fn scalar_order_matches_the_machine() {
    let mut gen = Patterns::new(0x2468_ace0_1357_9bdf);
    for _ in 0..40000 {
        let a = gen.next_single();
        let b = gen.next_single();
        let (x, y) = (Scalar::from_bits(a), Scalar::from_bits(b));
        let (fx, fy) = (f32::from_bits(a), f32::from_bits(b));
        assert_eq!(x.less(y), fx < fy);
        assert_eq!(x.greater(y), fx > fy);
        assert_eq!(x.at_least(y), fx >= fy);
        assert_eq!(x.at_most(y), fx <= fy);
        assert_eq!(x.equals(y), fx == fy);
        assert_eq!(x.test_negative(), fx < 0.0);
        assert_eq!(x.test_positive(), fx > 0.0);
        assert_eq!(x.test_zero(), fx == 0.0);
        assert_eq!(x.test_nan(), fx.is_nan());
        assert_eq!(x.sign_bit(), fx.is_sign_negative());
        assert_eq!(x.abs().to_bits(), fx.abs().to_bits());
        assert_eq!(x.negate().to_bits(), (-fx).to_bits());
        assert_eq!(x.flip_sign_if(true).to_bits(), (-fx).to_bits());
        assert_eq!(x.flip_sign_if(false).to_bits(), a);
    }
}

#[test]
fn scalar_constants() {
    assert_eq!(Scalar::make_zero().to_bits(), 0.0f32.to_bits());
    assert_eq!(Scalar::make_one().to_bits(), 1.0f32.to_bits());
    assert_eq!(Scalar::make_epsilon().to_bits(), f32::EPSILON.to_bits());
}

#[test]
fn widening_and_narrowing_match_the_machine() {
    let mut gen = Patterns::new(0x0bad_cafe_dead_beef);
    for _ in 0..40000 {
        let a = gen.next_single();
        let wide = Scalar::from_bits(a).widen().to_bits();
        assert!(same_double(wide, f32::from_bits(a) as f64), "widen {:#x}", a);
        let d = gen.next_double();
        let narrow = Wide::from_bits(d).narrow().to_bits();
        assert!(same_single(narrow, f64::from_bits(d) as f32), "narrow {:#x}", d);
        let near = (f32::from_bits(a) as f64).to_bits() ^ (gen.next_u64() & 0x3fff_ffff);
        let narrow = Wide::from_bits(near).narrow().to_bits();
        assert!(same_single(narrow, f64::from_bits(near) as f32), "narrow {:#x}", near);
    }
}

#[test]
fn wide_arithmetic_matches_the_machine() {
    let mut gen = Patterns::new(0x7777_1234_aaaa_4321);
    for _ in 0..30000 {
        let a = gen.next_double();
        let b = gen.next_double();
        let (x, y) = (Wide::from_bits(a), Wide::from_bits(b));
        let (fx, fy) = (f64::from_bits(a), f64::from_bits(b));
        assert!(same_double(x.plus(y).to_bits(), fx + fy), "{:#x} + {:#x}", a, b);
        assert!(same_double(x.minus(y).to_bits(), fx - fy), "{:#x} - {:#x}", a, b);
        assert!(same_double(x.times(y).to_bits(), fx * fy), "{:#x} * {:#x}", a, b);
    }
}

#[test]
fn ties_go_to_even() {
    // 1 + 2^-24 lies halfway between 1 and the next number: it goes to 1.
    let one = Scalar::from_bits(0x3f80_0000);
    let half_gap = Scalar::from_bits(0x3380_0000);
    assert_eq!(one.plus(half_gap).to_bits(), 0x3f80_0000);
    // (1 + 2^-23) + 2^-24 lies halfway too: it goes up, to the even pattern.
    let next = Scalar::from_bits(0x3f80_0001);
    assert_eq!(next.plus(half_gap).to_bits(), 0x3f80_0002);
    // 1 / 3, rounded down.
    let three = Scalar::from_bits(0x4040_0000);
    assert_eq!(one.over(three).to_bits(), 0x3eaa_aaab);
    assert_eq!((1.0f32 / 3.0f32).to_bits(), 0x3eaa_aaab);
}

#[test]
fn overflow_and_underflow() {
    let max = Scalar::from_bits(0x7f7f_ffff);
    let two = Scalar::from_bits(0x4000_0000);
    assert_eq!(max.times(two).to_bits(), 0x7f80_0000);
    assert_eq!(max.plus(max).to_bits(), 0x7f80_0000);
    let tiny = Scalar::from_bits(1);
    assert_eq!(tiny.over(two).to_bits(), 0);
    assert_eq!(tiny.times(tiny).to_bits(), 0);
    assert_eq!(tiny.negate().over(two).to_bits(), 0x8000_0000);
}

#[test]
fn zeros_and_nans() {
    let zero = Scalar::from_bits(0);
    let minus_zero = Scalar::from_bits(0x8000_0000);
    let inf = Scalar::from_bits(0x7f80_0000);
    let one = Scalar::from_bits(0x3f80_0000);
    assert_eq!(zero.plus(minus_zero).to_bits(), 0);
    assert_eq!(minus_zero.plus(minus_zero).to_bits(), 0x8000_0000);
    assert_eq!(one.minus(one).to_bits(), 0);
    assert_eq!(zero.over(zero).to_bits(), 0x7fc0_0000);
    assert_eq!(inf.minus(inf).to_bits(), 0x7fc0_0000);
    assert_eq!(inf.times(zero).to_bits(), 0x7fc0_0000);
    assert_eq!(one.over(zero).to_bits(), 0x7f80_0000);
    assert_eq!(one.over(minus_zero).to_bits(), 0xff80_0000);
    assert_eq!(one.over(inf).to_bits(), 0);
}

#[test]
fn vectors_match_glam() {
    let mut gen = Patterns::new(0x3141_5926_5358_9793);
    for _ in 0..20000 {
        let p = [gen.next_single(), gen.next_single(), gen.next_single()];
        let q = [gen.next_single(), gen.next_single(), gen.next_single()];
        let a = Vector3::from_bits(p[0], p[1], p[2]);
        let b = Vector3::new(Scalar::from_bits(q[0]), Scalar::from_bits(q[1]), Scalar::from_bits(q[2]));
        let fa = Vec3::new(f32::from_bits(p[0]), f32::from_bits(p[1]), f32::from_bits(p[2]));
        let fb = Vec3::new(f32::from_bits(q[0]), f32::from_bits(q[1]), f32::from_bits(q[2]));
        let difference = a.minus(b);
        let cross = a.cross(b);
        let magnitude = a.abs();
        let (fd, fc, fm) = (fa - fb, fa.cross(fb), fa.abs());
        for axis in 0..3 {
            assert_eq!(a.get(axis).to_bits(), fa[axis].to_bits());
            assert!(same_single(difference.get(axis).to_bits(), fd[axis]));
            assert!(same_single(cross.get(axis).to_bits(), fc[axis]));
            assert_eq!(magnitude.get(axis).to_bits(), fm[axis].to_bits());
        }
        assert!(same_single(a.dot(b).to_bits(), fa.dot(fb)));
    }
}
