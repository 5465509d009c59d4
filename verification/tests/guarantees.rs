use watertight::intersection::{edge, edge_wide, scaled_coordinates, transform};
use watertight::{watertight_ray_triangle_intersection, Hit, Scalar, Vector3};

fn vector(p: [f32; 3]) -> Vector3 {
    Vector3::from_bits(p[0].to_bits(), p[1].to_bits(), p[2].to_bits())
}

fn number(s: Scalar) -> f32 {
    f32::from_bits(s.to_bits())
}

fn test(o: [f32; 3], d: [f32; 3], t: [[f32; 3]; 3], culling: bool) -> Option<Hit> {
    watertight_ray_triangle_intersection(
        vector(o),
        vector(d),
        (vector(t[0]), vector(t[1]), vector(t[2])),
        culling,
    )
}

struct Numbers {
    state: u64,
}

impl Numbers {
    fn next_u64(&mut self) -> u64 {
        self.state ^= self.state << 13;
        self.state ^= self.state >> 7;
        self.state ^= self.state << 17;
        self.state
    }

    fn grid(&mut self) -> f32 {
        ((self.next_u64() % 41) as i64 - 20) as f32 * 0.25
    }

    fn tenths(&mut self) -> f32 {
        ((self.next_u64() % 61) as i64 - 30) as f32 * 0.1
    }

    fn point(&mut self, pick: fn(&mut Numbers) -> f32) -> [f32; 3] {
        [pick(self), pick(self), pick(self)]
    }
}

#[test]
fn hits_have_no_negative_part_and_weights_that_sum_to_one() {
    let mut gen = Numbers { state: 0x4242_4242_1234_4321 };
    let mut hits = 0;
    for round in 0..8000 {
        let o = gen.point(Numbers::tenths);
        let d = gen.point(Numbers::tenths);
        let t = [gen.point(Numbers::tenths), gen.point(Numbers::tenths), gen.point(Numbers::tenths)];
        if let Some(hit) = test(o, d, t, round % 2 == 0) {
            hits += 1;
            let (u, v, w, t) = (number(hit.u()), number(hit.v()), number(hit.w()), number(hit.t()));
            assert!(t >= 0.0 && u >= 0.0 && v >= 0.0 && w >= 0.0);
            assert!(u.is_finite() && v.is_finite() && w.is_finite());
            let sum = u as f64 + v as f64 + w as f64;
            assert!((sum - 1.0).abs() <= 1.0e-5, "{} {} {}", u, v, w);
        }
    }
    assert!(hits > 100);
}

#[test]
fn reversed_winding_is_culled() {
    let mut gen = Numbers { state: 0x0101_0202_0303_0404 };
    let mut hits = 0;
    for _ in 0..8000 {
        let o = gen.point(Numbers::tenths);
        let d = gen.point(Numbers::tenths);
        let t = [gen.point(Numbers::grid), gen.point(Numbers::grid), gen.point(Numbers::grid)];
        if let Some(hit) = test(o, d, t, true) {
            if number(hit.u()) > 0.0 || number(hit.v()) > 0.0 || number(hit.w()) > 0.0 {
                hits += 1;
                assert!(test(o, d, [t[2], t[1], t[0]], true).is_none());
            }
        }
    }
    assert!(hits > 50);
}

#[test]
fn shared_edge_is_never_outside_for_both() {
    let mut gen = Numbers { state: 0x0bad_f00d_1234_5678 };
    let mut mixed = 0;
    for round in 0..8000 {
        let o = vector(gen.point(Numbers::tenths));
        let dir = vector(gen.point(Numbers::tenths));
        let mut points = [
            gen.point(Numbers::tenths),
            gen.point(Numbers::tenths),
            gen.point(Numbers::grid),
            gen.point(Numbers::grid),
        ];
        if round % 2 == 0 {
            // a first triangle without area is computed in binary64
            points[2] = points[1];
        }
        let [a, b, c, d] = points.map(|p| {
            let (x, y, _) = transform(vector(p), o, dir);
            (x, y)
        });
        let first = scaled_coordinates(a, b, c).2;
        let second = scaled_coordinates(b, a, d).2;
        assert!(!(first.test_negative() && second.test_negative()));
        assert!(!(first.test_positive() && second.test_positive()));
        let narrow = edge(b, a);
        let wide = edge_wide(b, a);
        assert!(!(narrow.test_negative() && wide.test_positive()));
        assert!(!(narrow.test_positive() && wide.test_negative()));
        if first.to_bits() != second.negate().to_bits() {
            mixed += 1;
        }
    }
    // some pairs were computed in different precisions
    assert!(mixed > 0);
}

#[test]
fn edge_functions_have_the_sign_of_the_exact_ones() {
    let mut gen = Numbers { state: 0x5555_aaaa_5555_aaaa };
    for _ in 0..20000 {
        let fine = |g: &mut Numbers| {
            f32::from_bits((((g.next_u64() >> 32) as u32) & 0x83ff_ffff) | 0x3c00_0000)
        };
        let p = (fine(&mut gen), fine(&mut gen));
        let q = (fine(&mut gen), fine(&mut gen));
        // products of two binary32 numbers are exact in binary64
        let first = p.0 as f64 * q.1 as f64;
        let second = p.1 as f64 * q.0 as f64;
        let ps = (Scalar::from_bits(p.0.to_bits()), Scalar::from_bits(p.1.to_bits()));
        let qs = (Scalar::from_bits(q.0.to_bits()), Scalar::from_bits(q.1.to_bits()));
        for computed in [edge(ps, qs), edge_wide(ps, qs)] {
            if computed.test_negative() {
                assert!(first < second);
            }
            if computed.test_positive() {
                assert!(first > second);
            }
        }
    }
}

#[test]
fn triangle_behind_is_not_hit_ahead() {
    let mut gen = Numbers { state: 0x9999_8888_7777_6666 };
    let mut behind = 0;
    for round in 0..8000 {
        let o = gen.point(Numbers::tenths);
        let d = gen.point(Numbers::tenths);
        let t = [gen.point(Numbers::grid), gen.point(Numbers::grid), gen.point(Numbers::grid)];
        let depths = t.map(|p| transform(vector(p), vector(o), vector(d)).2);
        if depths.iter().all(|z| z.test_negative()) {
            behind += 1;
            if let Some(hit) = test(o, d, t, round % 2 == 0) {
                assert!(hit.t().test_zero() || hit.t().test_nan());
            }
        }
    }
    assert!(behind > 100);
}

#[test]
fn underflow_lets_a_triangle_behind_through_at_distance_zero() {
    let s = 1.0e-15f32;
    let z = -1.0e-20f32;
    let hit = test([0.0; 3], [0.0, 0.0, 1.0], [[-s, -s, z], [-s, s, z], [s, 0.0, z]], false);
    let hit = hit.unwrap();
    assert_eq!(number(hit.u()), 0.25);
    assert_eq!(number(hit.v()), 0.25);
    assert_eq!(number(hit.w()), 0.5);
    assert_eq!(hit.t().to_bits(), (-0.0f32).to_bits());
}

#[test]
fn overflow_leaves_weights_of_zero() {
    let big = 1.0e19f32;
    let hit = test(
        [0.0; 3],
        [0.0, 0.0, 1.0],
        [[-big, -big, 5.0], [-big, big, 5.0], [big, 0.0, 5.0]],
        false,
    );
    let hit = hit.unwrap();
    assert_eq!(number(hit.u()), 0.0);
    assert_eq!(number(hit.v()), 0.0);
    assert_eq!(number(hit.w()), 0.0);
    assert!(number(hit.t()).is_nan());
}

#[test]
fn rounding_can_lose_a_ray_that_starts_on_the_triangle() {
    // The origin is (a + b + 2c) / 4, inside the triangle; the distance, which
    // is zero, comes out below zero.
    let a = [3.25, -1.25, 1.0];
    let b = [-3.0, 4.0, 1.5];
    let c = [-0.75, 0.75, -3.5];
    let o = [-0.3125, 1.0625, -1.125];
    assert!(test(o, [-0.2, 1.5, -0.7], [a, b, c], false).is_none());
}
