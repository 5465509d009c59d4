//! The watertight ray-triangle test of Woop, Benthin and Wald.
//!
//! The ray is sheared onto its dominant axis, the triangle is projected onto
//! the plane across that axis, and the three edge functions of the projected
//! triangle decide the hit. Near an edge they are recomputed with binary64
//! products, so that two triangles that share the edge agree on its side.

use vstd::prelude::*;
use crate::guarantees::{
    not_negative, regular_weights, weights_sum_to_one, lemma_resolved_is_not_negative,
    lemma_resolved_weights_sum_to_one,
};
use crate::scalar::{Scalar, Wide};
use crate::vector::Vector3;

verus! {

/// Where a ray meets a triangle: the barycentric weights `u`, `v`, `w` of the
/// point and the ray parameter `t`.
#[derive(Clone, Copy, Debug)]
pub struct Hit {
    u: Scalar,
    v: Scalar,
    w: Scalar,
    t: Scalar,
}

impl View for Hit {
    type V = (Scalar, Scalar, Scalar, Scalar);

    /// The record as `(u, v, w, t)`.
    closed spec fn view(&self) -> (Scalar, Scalar, Scalar, Scalar) {
        (self.u, self.v, self.w, self.t)
    }
}

impl Hit {
    pub fn as_tuple(&self) -> (r: (Scalar, Scalar, Scalar, Scalar))
        ensures
            r == self@,
    {
        (self.u, self.v, self.w, self.t)
    }

    pub fn u(&self) -> (r: Scalar)
        ensures
            r == self@.0,
    {
        self.u
    }

    pub fn v(&self) -> (r: Scalar)
        ensures
            r == self@.1,
    {
        self.v
    }

    pub fn w(&self) -> (r: Scalar)
        ensures
            r == self@.2,
    {
        self.w
    }

    pub fn t(&self) -> (r: Scalar)
        ensures
            r == self@.3,
    {
        self.t
    }
}

/// The axis on which the direction is largest in magnitude; of equals, the
/// first.
pub open spec fn dominant_axis(direction: Vector3) -> int {
    let m = direction.magnitude();
    if m.x.not_below(m.y) && m.x.not_below(m.z) {
        0
    } else if m.y.not_below(m.x) && m.y.not_below(m.z) {
        1
    } else {
        2
    }
}

/// The axes `(kx, ky, kz)` of the sheared frame: `kz` is the dominant axis and
/// the other two follow it in turn, swapped where the ray runs down `kz`, so
/// that the projection keeps every triangle's winding.
pub open spec fn axes(direction: Vector3) -> (int, int, int) {
    let kz = dominant_axis(direction);
    let next = (kz + 1) % 3;
    let last = (kz + 2) % 3;
    if direction.component(kz).is_negative() {
        (last, next, kz)
    } else {
        (next, last, kz)
    }
}

/// A direction with next to nothing along its own dominant axis.
pub open spec fn degenerate(direction: Vector3) -> bool {
    direction.component(dominant_axis(direction)).is_tiny()
}

/// The shear constants `(sx, sy, sz)`.
pub open spec fn shear(direction: Vector3) -> (Scalar, Scalar, Scalar) {
    let (kx, ky, kz) = axes(direction);
    let dz = direction.component(kz);
    (direction.component(kx).quotient(dz), direction.component(ky).quotient(dz), Scalar::one().quotient(dz))
}

/// A vertex in the plane across the dominant axis, seen from the ray.
pub open spec fn projected(vertex: Vector3, origin: Vector3, direction: Vector3) -> (Scalar, Scalar) {
    let (kx, ky, kz) = axes(direction);
    let (sx, sy, _sz) = shear(direction);
    let p = vertex.difference(origin);
    (
        p.component(kx).difference(sx.product(p.component(kz))),
        p.component(ky).difference(sy.product(p.component(kz))),
    )
}

/// How far along the ray a vertex lies, in the sheared frame.
pub open spec fn depth(vertex: Vector3, origin: Vector3, direction: Vector3) -> Scalar {
    let (_kx, _ky, kz) = axes(direction);
    let (_sx, _sy, sz) = shear(direction);
    sz.product(vertex.difference(origin).component(kz))
}

/// The edge function `p.x * q.y - p.y * q.x` of two projected vertices.
pub open spec fn edge_function(p: (Scalar, Scalar), q: (Scalar, Scalar)) -> Scalar {
    p.0.product(q.1).difference(p.1.product(q.0))
}

/// The same edge function with its products and its difference in binary64.
pub open spec fn edge_function_wide(p: (Scalar, Scalar), q: (Scalar, Scalar)) -> Scalar {
    p.0.widened().product(q.1.widened()).difference(p.1.widened().product(q.0.widened())).narrowed()
}

/// The scaled barycentric coordinates `(u, v, w)` of the ray in the projected
/// triangle `a`, `b`, `c`: binary32 edge functions, or, where one of them is
/// next to zero, all three again in binary64.
pub open spec fn edge_functions(a: (Scalar, Scalar), b: (Scalar, Scalar), c: (Scalar, Scalar)) -> (
    Scalar,
    Scalar,
    Scalar,
) {
    let u = edge_function(c, b);
    let v = edge_function(a, c);
    let w = edge_function(b, a);
    if u.is_tiny() || v.is_tiny() || w.is_tiny() {
        (edge_function_wide(c, b), edge_function_wide(a, c), edge_function_wide(b, a))
    } else {
        (u, v, w)
    }
}

/// Whether the edge test turns the ray away: with culling, on any negative
/// coordinate; without, on coordinates of both signs.
pub open spec fn outside(u: Scalar, v: Scalar, w: Scalar, backface_culling: bool) -> bool {
    let some_negative = u.is_negative() || v.is_negative() || w.is_negative();
    let some_positive = u.is_positive() || v.is_positive() || w.is_positive();
    if backface_culling {
        some_negative
    } else {
        some_negative && some_positive
    }
}

/// What the scaled coordinates `u`, `v`, `w` of the ray and the depths of the
/// three vertices come to: nothing where the ray passes outside, the
/// determinant is zero or the point lies behind the origin; else the hit as
/// `(u, v, w, t)`, each divided by the determinant.
pub open spec fn resolved(
    u: Scalar,
    v: Scalar,
    w: Scalar,
    az: Scalar,
    bz: Scalar,
    cz: Scalar,
    backface_culling: bool,
) -> Option<(Scalar, Scalar, Scalar, Scalar)> {
    let det = u.sum(v).sum(w);
    if outside(u, v, w, backface_culling) || det.is_zero() {
        None
    } else {
        let flip = det.is_negative();
        let u = u.sign_flipped_if(flip);
        let v = v.sign_flipped_if(flip);
        let w = w.sign_flipped_if(flip);
        let det = det.sign_flipped_if(flip);
        let t = u.product(az).sum(v.product(bz)).sum(w.product(cz)).sign_flipped_if(det.sign());
        if t.is_negative() {
            None
        } else {
            let r = Scalar::one().quotient(det);
            Some((u.product(r), v.product(r), w.product(r), t.product(r)))
        }
    }
}

/// What the test returns: nothing, or the hit as `(u, v, w, t)`.
pub open spec fn intersection(
    origin: Vector3,
    direction: Vector3,
    triangle: (Vector3, Vector3, Vector3),
    backface_culling: bool,
) -> Option<(Scalar, Scalar, Scalar, Scalar)> {
    if degenerate(direction) {
        None
    } else {
        let a = projected(triangle.0, origin, direction);
        let b = projected(triangle.1, origin, direction);
        let c = projected(triangle.2, origin, direction);
        let (u, v, w) = edge_functions(a, b, c);
        resolved(
            u,
            v,
            w,
            depth(triangle.0, origin, direction),
            depth(triangle.1, origin, direction),
            depth(triangle.2, origin, direction),
            backface_culling,
        )
    }
}

/// Picks the axes of the sheared frame.
pub fn select_axes(direction: Vector3) -> (k: (usize, usize, usize))
    ensures
        k.0 < 3,
        k.1 < 3,
        k.2 < 3,
        (k.0 as int, k.1 as int, k.2 as int) == axes(direction),
{
    let m: Vector3 = direction.abs();
    let kz: usize = if m.x.at_least(m.y) && m.x.at_least(m.z) {
        0
    } else if m.y.at_least(m.x) && m.y.at_least(m.z) {
        1
    } else {
        2
    };
    let next: usize = (kz + 1) % 3;
    let last: usize = (kz + 2) % 3;
    if direction.get(kz).test_negative() {
        (last, next, kz)
    } else {
        (next, last, kz)
    }
}

/// Whether the direction has next to nothing along its own dominant axis.
pub fn is_degenerate(direction: Vector3) -> (r: bool)
    ensures
        r == degenerate(direction),
{
    let (_kx, _ky, kz) = select_axes(direction);
    direction.get(kz).test_tiny()
}

/// Projects a vertex and gives its depth: `(x', y', z')`.
pub fn transform(vertex: Vector3, origin: Vector3, direction: Vector3) -> (r: (Scalar, Scalar, Scalar))
    ensures
        (r.0, r.1) == projected(vertex, origin, direction),
        r.2 == depth(vertex, origin, direction),
{
    let (kx, ky, kz) = select_axes(direction);
    let dz: Scalar = direction.get(kz);
    let sx: Scalar = direction.get(kx).over(dz);
    let sy: Scalar = direction.get(ky).over(dz);
    let sz: Scalar = Scalar::make_one().over(dz);
    let p: Vector3 = vertex.minus(origin);
    (
        p.get(kx).minus(sx.times(p.get(kz))),
        p.get(ky).minus(sy.times(p.get(kz))),
        sz.times(p.get(kz)),
    )
}

/// The edge function of two projected vertices in binary32.
pub fn edge(p: (Scalar, Scalar), q: (Scalar, Scalar)) -> (r: Scalar)
    ensures
        r == edge_function(p, q),
{
    p.0.times(q.1).minus(p.1.times(q.0))
}

/// The edge function of two projected vertices with binary64 products.
pub fn edge_wide(p: (Scalar, Scalar), q: (Scalar, Scalar)) -> (r: Scalar)
    ensures
        r == edge_function_wide(p, q),
{
    let first: Wide = p.0.widen().times(q.1.widen());
    let second: Wide = p.1.widen().times(q.0.widen());
    first.minus(second).narrow()
}

/// The scaled coordinates of the ray in a projected triangle.
pub fn scaled_coordinates(a: (Scalar, Scalar), b: (Scalar, Scalar), c: (Scalar, Scalar)) -> (r: (
    Scalar,
    Scalar,
    Scalar,
))
    ensures
        r == edge_functions(a, b, c),
{
    let u: Scalar = edge(c, b);
    let v: Scalar = edge(a, c);
    let w: Scalar = edge(b, a);
    if u.test_tiny() || v.test_tiny() || w.test_tiny() {
        (edge_wide(c, b), edge_wide(a, c), edge_wide(b, a))
    } else {
        (u, v, w)
    }
}

/// The edge test.
pub fn is_outside(u: Scalar, v: Scalar, w: Scalar, backface_culling: bool) -> (r: bool)
    ensures
        r == outside(u, v, w, backface_culling),
{
    let some_negative: bool = u.test_negative() || v.test_negative() || w.test_negative();
    if backface_culling {
        some_negative
    } else {
        some_negative && (u.test_positive() || v.test_positive() || w.test_positive())
    }
}

/// Decides the hit from the scaled coordinates of the ray and the depths of
/// the vertices.
pub fn resolve(
    u: Scalar,
    v: Scalar,
    w: Scalar,
    az: Scalar,
    bz: Scalar,
    cz: Scalar,
    backface_culling: bool,
) -> (r: Option<Hit>)
    ensures
        match r {
            Some(hit) => resolved(u, v, w, az, bz, cz, backface_culling) == Some(hit@),
            None => resolved(u, v, w, az, bz, cz, backface_culling) is None,
        },
        r matches Some(hit) ==> not_negative(hit@),
        r matches Some(hit) ==> (regular_weights(hit@) ==> weights_sum_to_one(hit@)),
{
    proof {
        lemma_resolved_is_not_negative(u, v, w, az, bz, cz, backface_culling);
        if resolved(u, v, w, az, bz, cz, backface_culling) matches Some(hit) && regular_weights(hit) {
            lemma_resolved_weights_sum_to_one(u, v, w, az, bz, cz, backface_culling);
        }
    }
    if is_outside(u, v, w, backface_culling) {
        return None;
    }
    let det: Scalar = u.plus(v).plus(w);
    if det.test_zero() {
        return None;
    }
    let flip: bool = det.test_negative();
    let u: Scalar = u.flip_sign_if(flip);
    let v: Scalar = v.flip_sign_if(flip);
    let w: Scalar = w.flip_sign_if(flip);
    let det: Scalar = det.flip_sign_if(flip);
    let t: Scalar = u.times(az).plus(v.times(bz)).plus(w.times(cz)).flip_sign_if(det.sign_bit());
    if t.test_negative() {
        return None;
    }
    let r: Scalar = Scalar::make_one().over(det);
    Some(Hit { u: u.times(r), v: v.times(r), w: w.times(r), t: t.times(r) })
}

/// Tests the ray from `origin` along `direction` against the triangle.
/// Gives the hit, or nothing where the direction is degenerate, the ray
/// passes outside or, with culling, meets the back face, the triangle is
/// degenerate, or the point lies behind the origin. No part of a hit is
/// negative, and its weights sum to one unless the arithmetic ran out of
/// range.
pub fn watertight_ray_triangle_intersection(
    origin: Vector3,
    direction: Vector3,
    triangle: (Vector3, Vector3, Vector3),
    backface_culling: bool,
) -> (r: Option<Hit>)
    ensures
        match r {
            Some(hit) => intersection(origin, direction, triangle, backface_culling) == Some(hit@),
            None => intersection(origin, direction, triangle, backface_culling) is None,
        },
        degenerate(direction) ==> r is None,
        r matches Some(hit) ==> not_negative(hit@),
        r matches Some(hit) ==> (regular_weights(hit@) ==> weights_sum_to_one(hit@)),
{
    if is_degenerate(direction) {
        return None;
    }
    let (ax, ay, az) = transform(triangle.0, origin, direction);
    let (bx, by, bz) = transform(triangle.1, origin, direction);
    let (cx, cy, cz) = transform(triangle.2, origin, direction);
    let (u, v, w) = scaled_coordinates((ax, ay), (bx, by), (cx, cy));
    resolve(u, v, w, az, bz, cz, backface_culling)
}

} // verus!
