use glam::Vec3;
use watertight::{watertight_ray_triangle_intersection, Scalar, Vector3};

fn vector(p: Vec3) -> Vector3 {
    Vector3::from_bits(p.x.to_bits(), p.y.to_bits(), p.z.to_bits())
}

fn triangle_of(t: (Vec3, Vec3, Vec3)) -> (Vector3, Vector3, Vector3) {
    (vector(t.0), vector(t.1), vector(t.2))
}

fn number(s: Scalar) -> f32 {
    f32::from_bits(s.to_bits())
}

#[test]
fn internal_test_intersection_direct() {
    let origin = Vec3::new(0.0, 0.0, 0.0);
    let direction = Vec3::new(0.0, 0.0, 1.0);
    let triangle = (
        Vec3::new(1.0, 0.0, 5.0),
        Vec3::new(-1.0, 1.0, 5.0),
        Vec3::new(-1.0, -1.0, 5.0),
    );
    let backface_culling = false;

    let result = watertight_ray_triangle_intersection(
        vector(origin),
        vector(direction),
        triangle_of(triangle),
        backface_culling,
    );
    assert!(result.is_some());
    let hit = result.unwrap();
    assert!(number(hit.t()) > 0.0);
    assert!((number(hit.u()) + number(hit.v()) + number(hit.w()) - 1.0).abs() < 1e-5);
}

#[test]
fn internal_test_intersection_some() {
    let origin = Vec3::new(0.0, 0.0, 0.0);
    let direction = Vec3::new(0.0, 0.0, 1.0);
    let triangle = (
        Vec3::new(-1.0, -1.0, 5.0),
        Vec3::new(-1.0, 1.0, 5.0),
        Vec3::new(1.0, 0.0, 5.0),
    );
    let backface_culling = true;

    if let Some(hit) = watertight_ray_triangle_intersection(
        vector(origin),
        vector(direction),
        triangle_of(triangle),
        backface_culling,
    ) {
        let (u, v, w, t) = hit.as_tuple();
        let (u, v, w, t) = (number(u), number(v), number(w), number(t));
        println!("Intersection at t = {}, u = {}, v = {}, w = {}", t, u, v, w);
        assert!(t > 0.0);
    } else {
        panic!("Expected an intersection, but got None");
    }
}

#[test]
fn internal_test_no_intersection() {
    let origin = Vec3::new(0.0, 0.0, 0.0);
    let direction = Vec3::new(0.0, 1.0, 0.0);
    let triangle = (
        Vec3::new(1.0, 0.0, 5.0),
        Vec3::new(-1.0, 1.0, 5.0),
        Vec3::new(-1.0, -1.0, 5.0),
    );
    let backface_culling = true;

    assert!(watertight_ray_triangle_intersection(
        vector(origin),
        vector(direction),
        triangle_of(triangle),
        backface_culling
    )
    .is_none());
}

#[test]
fn integration_test_intersection_direct() {
    let origin = Vec3::new(0.0, 0.0, 0.0);
    let direction = Vec3::new(0.0, 0.0, 1.0);
    let triangle = (
        Vec3::new(1.0, 0.0, 5.0),
        Vec3::new(-1.0, 1.0, 5.0),
        Vec3::new(-1.0, -1.0, 5.0),
    );
    let backface_culling = false;

    let result = watertight_ray_triangle_intersection(
        vector(origin),
        vector(direction),
        triangle_of(triangle),
        backface_culling,
    );
    assert!(result.is_some());
    let hit = result.unwrap();
    assert!(number(hit.t()) > 0.0);
    assert!((number(hit.u()) + number(hit.v()) + number(hit.w()) - 1.0).abs() < 1e-5);
}

#[test]
fn integration_test_intersection_some() {
    let origin = Vec3::new(0.0, 0.0, 0.0);
    let direction = Vec3::new(0.0, 0.0, 1.0);
    let triangle = (
        Vec3::new(-1.0, -1.0, 5.0),
        Vec3::new(-1.0, 1.0, 5.0),
        Vec3::new(1.0, 0.0, 5.0),
    );
    let backface_culling = true;

    if let Some(hit) = watertight_ray_triangle_intersection(
        vector(origin),
        vector(direction),
        triangle_of(triangle),
        backface_culling,
    ) {
        let t = number(hit.t());
        let u = number(hit.u());
        let v = number(hit.v());
        let w = number(hit.w());

        println!("Intersection at t = {}, u = {}, v = {}, w = {}", t, u, v, w);
        assert!(t > 0.0);
    } else {
        panic!("Expected an intersection, but got None");
    }
}

#[test]
fn no_intersection() {
    let origin = Vec3::new(0.0, 0.0, 0.0);
    let direction = Vec3::new(0.0, 1.0, 0.0);
    let triangle = (
        Vec3::new(1.0, 0.0, 5.0),
        Vec3::new(-1.0, 1.0, 5.0),
        Vec3::new(-1.0, -1.0, 5.0),
    );
    let backface_culling = true;

    assert!(watertight_ray_triangle_intersection(
        vector(origin),
        vector(direction),
        triangle_of(triangle),
        backface_culling
    )
    .is_none());
}
