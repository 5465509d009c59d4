use glam::Vec3;
use watertight::{watertight_ray_triangle_intersection, Hit, Scalar, Vector3};

fn vector(x: f32, y: f32, z: f32) -> Vector3 {
    Vector3::from_bits(x.to_bits(), y.to_bits(), z.to_bits())
}

fn number(s: Scalar) -> f32 {
    f32::from_bits(s.to_bits())
}

fn test(
    origin: (f32, f32, f32),
    direction: (f32, f32, f32),
    triangle: [(f32, f32, f32); 3],
    backface_culling: bool,
) -> Option<Hit> {
    watertight_ray_triangle_intersection(
        vector(origin.0, origin.1, origin.2),
        vector(direction.0, direction.1, direction.2),
        (
            vector(triangle[0].0, triangle[0].1, triangle[0].2),
            vector(triangle[1].0, triangle[1].1, triangle[1].2),
            vector(triangle[2].0, triangle[2].1, triangle[2].2),
        ),
        backface_culling,
    )
}

const FACING_AWAY: [(f32, f32, f32); 3] = [(1.0, 0.0, 5.0), (-1.0, 1.0, 5.0), (-1.0, -1.0, 5.0)];
const FACING_RAY: [(f32, f32, f32); 3] = [(-1.0, -1.0, 5.0), (-1.0, 1.0, 5.0), (1.0, 0.0, 5.0)];

#[test]
fn reference_hit_has_exact_values() {
    let hit = test((0.0, 0.0, 0.0), (0.0, 0.0, 1.0), FACING_AWAY, false).unwrap();
    // u, v, w come to 2, 1, 1 over a determinant of 4, and t to 20 over 4.
    assert_eq!(number(hit.u()), 0.5);
    assert_eq!(number(hit.v()), 0.25);
    assert_eq!(number(hit.w()), 0.25);
    assert_eq!(number(hit.t()), 5.0);
    let (u, v, w, t) = hit.as_tuple();
    assert_eq!((u, v, w, t), (hit.u(), hit.v(), hit.w(), hit.t()));
}

#[test]
fn culling_turns_the_back_face_away() {
    assert!(test((0.0, 0.0, 0.0), (0.0, 0.0, 1.0), FACING_AWAY, true).is_none());
    assert!(test((0.0, 0.0, 0.0), (0.0, 0.0, 1.0), FACING_AWAY, false).is_some());
}

#[test]
fn winding_decides_the_culled_outcome() {
    let front = test((0.0, 0.0, 0.0), (0.0, 0.0, 1.0), FACING_RAY, true).unwrap();
    assert!(number(front.u()) > 0.0 && number(front.v()) > 0.0 && number(front.w()) > 0.0);
    assert_eq!(number(front.t()), 5.0);
    let reversed = [FACING_RAY[2], FACING_RAY[1], FACING_RAY[0]];
    assert!(test((0.0, 0.0, 0.0), (0.0, 0.0, 1.0), reversed, true).is_none());
}

#[test]
fn parallel_ray_misses() {
    assert!(test((0.0, 0.0, 0.0), (0.0, 1.0, 0.0), FACING_AWAY, true).is_none());
    assert!(test((0.0, 0.0, 0.0), (0.0, 1.0, 0.0), FACING_AWAY, false).is_none());
}

#[test]
fn zero_direction_misses() {
    for culling in [false, true] {
        assert!(test((0.0, 0.0, 0.0), (0.0, 0.0, 0.0), FACING_AWAY, culling).is_none());
        assert!(test((0.0, 0.0, 0.0), (-0.0, 0.0, -0.0), FACING_RAY, culling).is_none());
        assert!(test((0.3, -0.2, 4.0), (0.0, -0.0, 0.0), FACING_RAY, culling).is_none());
    }
}

#[test]
fn direction_under_epsilon_misses() {
    let small = f32::EPSILON / 2.0;
    assert!(test((0.0, 0.0, 0.0), (0.0, 0.0, small), FACING_RAY, false).is_none());
    assert!(test((0.0, 0.0, 0.0), (0.0, 0.0, f32::EPSILON), FACING_RAY, false).is_some());
}

#[test]
fn triangle_behind_the_origin_misses() {
    for culling in [false, true] {
        assert!(test((0.0, 0.0, 10.0), (0.0, 0.0, 1.0), FACING_RAY, culling).is_none());
        assert!(test((0.0, 0.0, 10.0), (0.0, 0.0, 1.0), FACING_AWAY, culling).is_none());
    }
    assert!(test((0.0, 0.0, 0.0), (0.0, 0.0, -1.0), FACING_AWAY, false).is_none());
}

#[test]
fn ray_down_the_axis_keeps_the_winding() {
    // Seen from above, against the axis, the winding is the other one.
    let hit = test((0.0, 0.0, 10.0), (0.0, 0.0, -1.0), FACING_AWAY, true).unwrap();
    assert_eq!(number(hit.t()), 5.0);
    assert!(test((0.0, 0.0, 10.0), (0.0, 0.0, -1.0), FACING_RAY, true).is_none());
}

#[test]
fn direction_need_not_be_normalized() {
    let hit = test((0.0, 0.0, 0.0), (0.0, 0.0, 2.0), FACING_RAY, true).unwrap();
    assert_eq!(number(hit.t()), 2.5);
    assert_eq!(number(hit.u()) + number(hit.v()) + number(hit.w()), 1.0);
}

#[test]
fn degenerate_triangle_misses() {
    let line = [(-1.0, 0.0, 5.0), (0.0, 0.0, 5.0), (1.0, 0.0, 5.0)];
    let point = [(0.0, 0.0, 5.0), (0.0, 0.0, 5.0), (0.0, 0.0, 5.0)];
    for culling in [false, true] {
        assert!(test((0.0, 0.0, 0.0), (0.0, 0.0, 1.0), line, culling).is_none());
        assert!(test((0.0, 0.0, 0.0), (0.0, 0.0, 1.0), point, culling).is_none());
    }
}

#[test]
fn ray_outside_misses() {
    assert!(test((3.0, 0.0, 0.0), (0.0, 0.0, 1.0), FACING_RAY, false).is_none());
    assert!(test((0.0, 2.0, 0.0), (0.0, 0.0, 1.0), FACING_RAY, false).is_none());
}

#[test]
fn a_point_on_a_shared_edge_is_never_lost() {
    // Two triangles along the edge from (0,0,5) to (1,0,5), wound alike.
    let upper = [(0.0, 0.0, 5.0), (1.0, 0.0, 5.0), (0.0, 1.0, 5.0)];
    let lower = [(1.0, 0.0, 5.0), (0.0, 0.0, 5.0), (0.0, -1.0, 5.0)];
    let mut x = 0.03125f32;
    while x < 1.0 {
        let first = test((x, 0.0, 0.0), (0.0, 0.0, 1.0), upper, false);
        let second = test((x, 0.0, 0.0), (0.0, 0.0, 1.0), lower, false);
        assert!(first.is_some() || second.is_some());
        x += 0.03125;
    }
    // On the edge itself both edge functions are zero and both triangles take
    // the ray.
    assert!(test((0.5, 0.0, 0.0), (0.0, 0.0, 1.0), upper, false).is_some());
    assert!(test((0.5, 0.0, 0.0), (0.0, 0.0, 1.0), lower, false).is_some());
}

#[test]
fn rays_across_a_shared_edge_hit_one_side() {
    let upper = [(0.0, 0.0, 5.0), (1.0, 0.0, 5.0), (0.0, 1.0, 5.0)];
    let lower = [(1.0, 0.0, 5.0), (0.0, 0.0, 5.0), (0.0, -1.0, 5.0)];
    for step in 1..200 {
        let y = (step as f32 - 100.0) * 1.0e-9;
        if y == 0.0 {
            continue;
        }
        let direction = (0.25, y, 5.0);
        let first = test((0.0, 0.0, 0.0), direction, upper, false);
        let second = test((0.0, 0.0, 0.0), direction, lower, false);
        assert!(first.is_some() != second.is_some(), "y = {}", y);
    }
}

#[test]
fn nan_goes_through_to_the_hit() {
    let hit = test((0.0, 0.0, 0.0), (0.0, 0.0, f32::NAN), FACING_RAY, false);
    let hit = hit.unwrap();
    assert!(number(hit.t()).is_nan());
    assert!(number(hit.u()).is_nan());
}

/// The same routine in the machine's own arithmetic, to hold the library to.
fn machine(
    origin: Vec3,
    direction: Vec3,
    triangle: (Vec3, Vec3, Vec3),
    backface_culling: bool,
) -> Option<(f32, f32, f32, f32)> {
    let m = direction.abs();
    let kz = if m.x >= m.y && m.x >= m.z {
        0
    } else if m.y >= m.x && m.y >= m.z {
        1
    } else {
        2
    };
    let mut kx = (kz + 1) % 3;
    let mut ky = (kx + 1) % 3;
    if direction[kz] < 0.0 {
        std::mem::swap(&mut kx, &mut ky);
    }
    if direction[kz].abs() < f32::EPSILON {
        return None;
    }
    let sx = direction[kx] / direction[kz];
    let sy = direction[ky] / direction[kz];
    let sz = 1.0 / direction[kz];
    let a = triangle.0 - origin;
    let b = triangle.1 - origin;
    let c = triangle.2 - origin;
    let ax = a[kx] - sx * a[kz];
    let ay = a[ky] - sy * a[kz];
    let bx = b[kx] - sx * b[kz];
    let by = b[ky] - sy * b[kz];
    let cx = c[kx] - sx * c[kz];
    let cy = c[ky] - sy * c[kz];
    let mut u = cx * by - cy * bx;
    let mut v = ax * cy - ay * cx;
    let mut w = bx * ay - by * ax;
    if u.abs() < f32::EPSILON || v.abs() < f32::EPSILON || w.abs() < f32::EPSILON {
        u = ((cx as f64) * (by as f64) - (cy as f64) * (bx as f64)) as f32;
        v = ((ax as f64) * (cy as f64) - (ay as f64) * (cx as f64)) as f32;
        w = ((bx as f64) * (ay as f64) - (by as f64) * (ax as f64)) as f32;
    }
    let negative = u < 0.0 || v < 0.0 || w < 0.0;
    let positive = u > 0.0 || v > 0.0 || w > 0.0;
    if backface_culling {
        if negative {
            return None;
        }
    } else if negative && positive {
        return None;
    }
    let mut det = u + v + w;
    if det == 0.0 {
        return None;
    }
    if det < 0.0 {
        u = -u;
        v = -v;
        w = -w;
        det = -det;
    }
    let mut t = u * (sz * a[kz]) + v * (sz * b[kz]) + w * (sz * c[kz]);
    if det.is_sign_negative() {
        t = -t;
    }
    if t < 0.0 {
        return None;
    }
    let r = 1.0 / det;
    Some((u * r, v * r, w * r, t * r))
}

struct Numbers {
    state: u64,
}

impl Numbers {
    fn next_u64(&mut self) -> u64 {
        self.state ^= self.state << 13;
        self.state ^= self.state >> 7;
        self.state ^= self.state << 17;
        self.state
    }

    /// A number between -range and range on a grid, so that rays often run
    /// exactly along edges and through vertices.
    fn coarse(&mut self, range: i64) -> f32 {
        let n = (self.next_u64() % (2 * range as u64 + 1)) as i64 - range;
        n as f32 * 0.25
    }

    fn fine(&mut self) -> f32 {
        let bits = (self.next_u64() >> 32) as u32;
        f32::from_bits((bits & 0x83ff_ffff) | 0x3c00_0000)
    }

    fn any(&mut self) -> f32 {
        let f = f32::from_bits((self.next_u64() >> 32) as u32);
        if f.is_nan() {
            0.0
        } else {
            f
        }
    }
}

fn agrees(gen: &mut Numbers, pick: fn(&mut Numbers) -> f32, rounds: usize) -> usize {
    let mut hits = 0;
    for round in 0..rounds {
        let mut p = [0.0f32; 15];
        for slot in p.iter_mut() {
            *slot = pick(gen);
        }
        let culling = round % 2 == 0;
        let want = machine(
            Vec3::new(p[0], p[1], p[2]),
            Vec3::new(p[3], p[4], p[5]),
            (
                Vec3::new(p[6], p[7], p[8]),
                Vec3::new(p[9], p[10], p[11]),
                Vec3::new(p[12], p[13], p[14]),
            ),
            culling,
        );
        let got = test(
            (p[0], p[1], p[2]),
            (p[3], p[4], p[5]),
            [(p[6], p[7], p[8]), (p[9], p[10], p[11]), (p[12], p[13], p[14])],
            culling,
        );
        match (got, want) {
            (None, None) => {}
            (Some(hit), Some(w)) => {
                hits += 1;
                let g = [hit.u(), hit.v(), hit.w(), hit.t()];
                let w = [w.0, w.1, w.2, w.3];
                for i in 0..4 {
                    if w[i].is_nan() {
                        assert!(number(g[i]).is_nan(), "{:?}", p);
                    } else {
                        assert_eq!(g[i].to_bits(), w[i].to_bits(), "{:?}", p);
                    }
                }
            }
            (got, want) => panic!("{:?}: {:?} against {:?}", p, got.is_some(), want.is_some()),
        }
    }
    hits
}

fn coarse_small(gen: &mut Numbers) -> f32 {
    gen.coarse(8)
}

fn coarse_large(gen: &mut Numbers) -> f32 {
    gen.coarse(1000)
}

fn fine(gen: &mut Numbers) -> f32 {
    gen.fine()
}

fn any(gen: &mut Numbers) -> f32 {
    gen.any()
}

#[test]
fn agrees_with_the_machine_on_a_grid() {
    let mut gen = Numbers { state: 0x1357_9bdf_0246_8ace };
    let hits = agrees(&mut gen, coarse_small, 6000);
    assert!(hits > 100);
}

#[test]
fn agrees_with_the_machine_on_a_wide_grid() {
    let mut gen = Numbers { state: 0x0f0f_1234_5678_9abc };
    let hits = agrees(&mut gen, coarse_large, 6000);
    assert!(hits > 50);
}

#[test]
fn agrees_with_the_machine_on_fine_numbers() {
    let mut gen = Numbers { state: 0x7654_3210_fedc_ba98 };
    let hits = agrees(&mut gen, fine, 6000);
    assert!(hits > 50);
}

#[test]
fn agrees_with_the_machine_on_any_numbers() {
    let mut gen = Numbers { state: 0x1111_2222_3333_4444 };
    agrees(&mut gen, any, 6000);
}
