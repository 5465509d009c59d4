//! What holds of every call of the intersection test.

use vstd::prelude::*;
use crate::accuracy::{unit_one, lemma_unit_one, lemma_partition_of_unity};
use crate::format::Format;
use crate::order::{lemma_cross_sign, lemma_wide_cross_sign};
use crate::scalar::Scalar;
use crate::vector::Vector3;
use crate::intersection::{
    intersection, resolved, degenerate, dominant_axis, projected, depth, edge_function,
    edge_function_wide, edge_functions, outside,
};

verus! {

/// A direction that is zero on every axis, whatever the signs of the zeros,
/// hits no triangle.
pub proof fn lemma_zero_direction_misses(
    origin: Vector3,
    direction: Vector3,
    triangle: (Vector3, Vector3, Vector3),
    backface_culling: bool,
)
    requires
        direction.x.is_zero(),
        direction.y.is_zero(),
        direction.z.is_zero(),
    ensures
        intersection(origin, direction, triangle, backface_culling) is None,
{
    direction.x.lemma_sign();
    direction.y.lemma_sign();
    direction.z.lemma_sign();
    assert(degenerate(direction));
}

/// A direction with less than `epsilon` along its dominant axis hits no
/// triangle.
pub proof fn lemma_degenerate_direction_misses(
    origin: Vector3,
    direction: Vector3,
    triangle: (Vector3, Vector3, Vector3),
    backface_culling: bool,
)
    requires
        direction.component(dominant_axis(direction)).is_tiny(),
    ensures
        intersection(origin, direction, triangle, backface_culling) is None,
{
}

/// A weight or a distance divided by the determinant is not negative, where
/// the reciprocal is a NaN or has its sign bit clear, and the dividend is not
/// negative unless the reciprocal is a NaN.
pub proof fn lemma_normalized_is_not_negative(x: Scalar, r: Scalar)
    requires
        r.is_nan() || !r.sign(),
        !r.is_nan() ==> !x.is_negative(),
    ensures
        !x.product(r).is_negative(),
{
    x.lemma_product(r);
    x.lemma_sign();
    r.lemma_sign();
    x.product(r).lemma_sign();
}

/// Whatever the coordinates and depths, what they resolve to has no negative
/// part.
pub proof fn lemma_resolved_is_not_negative(
    u0: Scalar,
    v0: Scalar,
    w0: Scalar,
    az: Scalar,
    bz: Scalar,
    cz: Scalar,
    backface_culling: bool,
)
    ensures
        match resolved(u0, v0, w0, az, bz, cz, backface_culling) {
            Some(hit) => not_negative(hit),
            None => true,
        },
{
    let uv = u0.sum(v0);
    let det0 = uv.sum(w0);
    if resolved(u0, v0, w0, az, bz, cz, backface_culling) is Some {
        let flip = det0.is_negative();
        let u = u0.sign_flipped_if(flip);
        let v = v0.sign_flipped_if(flip);
        let w = w0.sign_flipped_if(flip);
        let det = det0.sign_flipped_if(flip);
        let t = u.product(az).sum(v.product(bz)).sum(w.product(cz)).sign_flipped_if(det.sign());
        let r = Scalar::one().quotient(det);
        assert(!outside(u0, v0, w0, backface_culling));
        assert(!det0.is_zero());
        assert(!t.is_negative());
        u0.lemma_sum(v0);
        uv.lemma_sum(w0);
        det0.lemma_sign();
        det0.lemma_negation();
        u0.lemma_negation();
        v0.lemma_negation();
        w0.lemma_negation();
        det.lemma_sign();
        assert(!det.sign());
        Scalar::one().lemma_quotient(det);
        Scalar::one().lemma_sign();
        assert(r.is_nan() || !r.sign());
        lemma_normalized_is_not_negative(t, r);
        if !r.is_nan() {
            assert(!det0.is_nan());
            assert(!u.is_negative() && !v.is_negative() && !w.is_negative());
        }
        lemma_normalized_is_not_negative(u, r);
        lemma_normalized_is_not_negative(v, r);
        lemma_normalized_is_not_negative(w, r);
    }
}

/// With every depth negative, what the coordinates resolve to is nothing, or
/// a hit whose distance is zero or a NaN.
pub proof fn lemma_resolved_behind(
    u0: Scalar,
    v0: Scalar,
    w0: Scalar,
    az: Scalar,
    bz: Scalar,
    cz: Scalar,
    backface_culling: bool,
)
    requires
        az.is_negative(),
        bz.is_negative(),
        cz.is_negative(),
    ensures
        match resolved(u0, v0, w0, az, bz, cz, backface_culling) {
            Some(hit) => hit.3.is_zero() || hit.3.is_nan(),
            None => true,
        },
{
    let uv = u0.sum(v0);
    let det0 = uv.sum(w0);
    if resolved(u0, v0, w0, az, bz, cz, backface_culling) is Some {
        let flip = det0.is_negative();
        let u = u0.sign_flipped_if(flip);
        let v = v0.sign_flipped_if(flip);
        let w = w0.sign_flipped_if(flip);
        let det = det0.sign_flipped_if(flip);
        let pa = u.product(az);
        let pb = v.product(bz);
        let pc = w.product(cz);
        let t = pa.sum(pb).sum(pc).sign_flipped_if(det.sign());
        let r = Scalar::one().quotient(det);
        assert(!outside(u0, v0, w0, backface_culling));
        assert(!det0.is_zero());
        assert(!t.is_negative());
        u0.lemma_sum(v0);
        uv.lemma_sum(w0);
        det0.lemma_sign();
        det0.lemma_negation();
        u0.lemma_negation();
        v0.lemma_negation();
        w0.lemma_negation();
        det.lemma_sign();
        assert(!det.sign());
        Scalar::one().lemma_quotient(det);
        t.lemma_product(r);
        if !r.is_nan() {
            assert(!det0.is_nan());
            assert(!u.is_negative() && !v.is_negative() && !w.is_negative());
            lemma_weighted_depth(u, az);
            lemma_weighted_depth(v, bz);
            lemma_weighted_depth(w, cz);
            pa.lemma_sum(pb);
            pa.sum(pb).lemma_sum(pc);
            t.lemma_sign();
            assert(t.is_nan() || t.is_zero());
        }
    }
}

/// A weight that is not negative times a negative depth is not positive.
pub proof fn lemma_weighted_depth(weight: Scalar, depth: Scalar)
    requires
        !weight.is_negative(),
        depth.is_negative(),
    ensures
        !weight.product(depth).is_positive(),
{
    weight.lemma_product(depth);
    weight.lemma_sign();
    depth.lemma_sign();
    weight.product(depth).lemma_sign();
}

/// A triangle whose three vertices lie behind the origin along the ray is not
/// hit at any distance above zero: the test gives nothing, or, where the
/// arithmetic ran out of range, a hit whose `t` is zero or a NaN.
pub proof fn lemma_behind_origin(
    origin: Vector3,
    direction: Vector3,
    triangle: (Vector3, Vector3, Vector3),
    backface_culling: bool,
)
    requires
        depth(triangle.0, origin, direction).is_negative(),
        depth(triangle.1, origin, direction).is_negative(),
        depth(triangle.2, origin, direction).is_negative(),
    ensures
        match intersection(origin, direction, triangle, backface_culling) {
            Some(hit) => hit.3.is_zero() || hit.3.is_nan(),
            None => true,
        },
{
    let a = projected(triangle.0, origin, direction);
    let b = projected(triangle.1, origin, direction);
    let c = projected(triangle.2, origin, direction);
    let (u, v, w) = edge_functions(a, b, c);
    lemma_resolved_behind(
        u,
        v,
        w,
        depth(triangle.0, origin, direction),
        depth(triangle.1, origin, direction),
        depth(triangle.2, origin, direction),
        backface_culling,
    );
}

/// An edge function taken of the same two points the other way round is its
/// mirror image, in binary32 and in binary64 alike.
pub proof fn lemma_edge_function_mirrors(p: (Scalar, Scalar), q: (Scalar, Scalar))
    ensures
        edge_function(p, q).mirrors(edge_function(q, p)),
        edge_function_wide(p, q).mirrors(edge_function_wide(q, p)),
{
    let x = p.0.product(q.1);
    let y = p.1.product(q.0);
    p.0.lemma_product(q.1);
    p.1.lemma_product(q.0);
    x.lemma_difference_mirrors(y);
    let xw = p.0.widened().product(q.1.widened());
    let yw = p.1.widened().product(q.0.widened());
    p.0.widened().lemma_product_commutes(q.1.widened());
    p.1.widened().lemma_product_commutes(q.0.widened());
    xw.lemma_difference_mirrors(yw);
    xw.difference(yw).lemma_narrowed_mirrors(yw.difference(xw));
}

/// Reversing the order of the projected vertices mirrors the three scaled
/// coordinates and swaps the first with the last.
pub proof fn lemma_reversed_edge_functions(
    a: (Scalar, Scalar),
    b: (Scalar, Scalar),
    c: (Scalar, Scalar),
)
    ensures
        edge_functions(c, b, a).0.mirrors(edge_functions(a, b, c).2),
        edge_functions(c, b, a).1.mirrors(edge_functions(a, b, c).1),
        edge_functions(c, b, a).2.mirrors(edge_functions(a, b, c).0),
{
    lemma_edge_function_mirrors(a, b);
    lemma_edge_function_mirrors(c, a);
    lemma_edge_function_mirrors(b, c);
    edge_function(a, b).lemma_mirrors(edge_function(b, a));
    edge_function(c, a).lemma_mirrors(edge_function(a, c));
    edge_function(b, c).lemma_mirrors(edge_function(c, b));
}

/// With culling, a weight of the hit that is positive comes of a scaled
/// coordinate that is positive.
pub proof fn lemma_positive_weight(
    u0: Scalar,
    v0: Scalar,
    w0: Scalar,
    az: Scalar,
    bz: Scalar,
    cz: Scalar,
)
    ensures
        match resolved(u0, v0, w0, az, bz, cz, true) {
            Some(hit) => (hit.0.is_positive() ==> u0.is_positive()) && (hit.1.is_positive()
                ==> v0.is_positive()) && (hit.2.is_positive() ==> w0.is_positive()),
            None => true,
        },
{
    let det0 = u0.sum(v0).sum(w0);
    if resolved(u0, v0, w0, az, bz, cz, true) is Some {
        let flip = det0.is_negative();
        let u = u0.sign_flipped_if(flip);
        let v = v0.sign_flipped_if(flip);
        let w = w0.sign_flipped_if(flip);
        let det = det0.sign_flipped_if(flip);
        let r = Scalar::one().quotient(det);
        assert(!outside(u0, v0, w0, true));
        u0.lemma_negation();
        v0.lemma_negation();
        w0.lemma_negation();
        u0.lemma_sign();
        v0.lemma_sign();
        w0.lemma_sign();
        u.lemma_product(r);
        v.lemma_product(r);
        w.lemma_product(r);
        u.product(r).lemma_sign();
        v.product(r).lemma_sign();
        w.product(r).lemma_sign();
    }
}

/// Winding decides the culled outcome: where a ray hits a triangle under
/// culling with a positive weight, so on its front face and off at least one
/// edge, it does not hit the triangle of the same vertices in reverse order.
pub proof fn lemma_reversed_winding_is_culled(
    origin: Vector3,
    direction: Vector3,
    triangle: (Vector3, Vector3, Vector3),
)
    requires
        match intersection(origin, direction, triangle, true) {
            Some(hit) => hit.0.is_positive() || hit.1.is_positive() || hit.2.is_positive(),
            None => false,
        },
    ensures
        intersection(origin, direction, (triangle.2, triangle.1, triangle.0), true) is None,
{
    let a = projected(triangle.0, origin, direction);
    let b = projected(triangle.1, origin, direction);
    let c = projected(triangle.2, origin, direction);
    let (u, v, w) = edge_functions(a, b, c);
    let (u2, v2, w2) = edge_functions(c, b, a);
    lemma_positive_weight(
        u,
        v,
        w,
        depth(triangle.0, origin, direction),
        depth(triangle.1, origin, direction),
        depth(triangle.2, origin, direction),
    );
    lemma_reversed_edge_functions(a, b, c);
    u2.lemma_mirrors(w);
    v2.lemma_mirrors(v);
    w2.lemma_mirrors(u);
    assert(outside(u2, v2, w2, true));
}

/// The edge function of two projected points in exact arithmetic, in squared
/// units.
pub open spec fn exact_edge(p: (Scalar, Scalar), q: (Scalar, Scalar)) -> int {
    p.0.value() * q.1.value() - p.1.value() * q.0.value()
}

/// A projected point with finite coordinates.
pub open spec fn finite_point(p: (Scalar, Scalar)) -> bool {
    p.0.is_finite() && p.1.is_finite()
}

/// An edge function of finite points, computed in binary32 or in binary64,
/// where it is negative or positive, lies on the side of zero on which the
/// exact edge function lies: rounding may bring it to zero, never across.
pub proof fn lemma_edge_function_sign(p: (Scalar, Scalar), q: (Scalar, Scalar))
    requires
        finite_point(p),
        finite_point(q),
    ensures
        edge_function(p, q).is_negative() ==> exact_edge(p, q) < 0,
        edge_function(p, q).is_positive() ==> exact_edge(p, q) > 0,
        edge_function_wide(p, q).is_negative() ==> exact_edge(p, q) < 0,
        edge_function_wide(p, q).is_positive() ==> exact_edge(p, q) > 0,
{
    Format::Single.lemma_layout();
    Format::Double.lemma_layout();
    let x = p.0.product(q.1);
    let y = p.1.product(q.0);
    p.0.lemma_product(q.1);
    p.1.lemma_product(q.0);
    x.lemma_difference(y);
    lemma_cross_sign(p.0.pattern(), q.1.pattern(), p.1.pattern(), q.0.pattern(), Format::Single);
    let xw = p.0.widened().product(q.1.widened());
    let yw = p.1.widened().product(q.0.widened());
    p.0.lemma_widened();
    q.1.lemma_widened();
    p.1.lemma_widened();
    q.0.lemma_widened();
    p.0.widened().lemma_patterns(q.1.widened());
    p.1.widened().lemma_patterns(q.0.widened());
    xw.lemma_patterns(yw);
    xw.difference(yw).lemma_patterns(yw);
    lemma_wide_cross_sign(p.0.pattern(), q.1.pattern(), p.1.pattern(), q.0.pattern());
}

/// Each scaled coordinate of a ray in a projected triangle of finite points,
/// where it is negative or positive, has the sign of the exact edge function.
pub proof fn lemma_scaled_coordinates_sign(
    a: (Scalar, Scalar),
    b: (Scalar, Scalar),
    c: (Scalar, Scalar),
)
    requires
        finite_point(a),
        finite_point(b),
        finite_point(c),
    ensures
        ({
            let (u, v, w) = edge_functions(a, b, c);
            &&& u.is_negative() ==> exact_edge(c, b) < 0
            &&& u.is_positive() ==> exact_edge(c, b) > 0
            &&& v.is_negative() ==> exact_edge(a, c) < 0
            &&& v.is_positive() ==> exact_edge(a, c) > 0
            &&& w.is_negative() ==> exact_edge(b, a) < 0
            &&& w.is_positive() ==> exact_edge(b, a) > 0
        }),
{
    lemma_edge_function_sign(c, b);
    lemma_edge_function_sign(a, c);
    lemma_edge_function_sign(b, a);
}

/// Where the edge test without culling turns a ray away from a projected
/// triangle of finite points, the exact edge functions are of both signs: in
/// exact arithmetic too the ray passes outside the projected triangle.
pub proof fn lemma_outside_is_exact(a: (Scalar, Scalar), b: (Scalar, Scalar), c: (Scalar, Scalar))
    requires
        finite_point(a),
        finite_point(b),
        finite_point(c),
        outside(edge_functions(a, b, c).0, edge_functions(a, b, c).1, edge_functions(a, b, c).2, false),
    ensures
        exact_edge(c, b) < 0 || exact_edge(a, c) < 0 || exact_edge(b, a) < 0,
        exact_edge(c, b) > 0 || exact_edge(a, c) > 0 || exact_edge(b, a) > 0,
{
    lemma_scaled_coordinates_sign(a, b, c);
}

/// The edge test is conservative. Where in exact arithmetic the ray meets the
/// projected triangle of finite points, its boundary included, so that no two
/// exact edge functions are of opposite signs, the test without culling does
/// not turn the ray away; nor does the test with culling, where none of the
/// exact edge functions is negative.
pub proof fn lemma_inside_passes_edge_test(
    a: (Scalar, Scalar),
    b: (Scalar, Scalar),
    c: (Scalar, Scalar),
)
    requires
        finite_point(a),
        finite_point(b),
        finite_point(c),
    ensures
        ({
            let (u, v, w) = edge_functions(a, b, c);
            let none_negative = exact_edge(c, b) >= 0 && exact_edge(a, c) >= 0 && exact_edge(b, a)
                >= 0;
            let none_positive = exact_edge(c, b) <= 0 && exact_edge(a, c) <= 0 && exact_edge(b, a)
                <= 0;
            &&& none_negative || none_positive ==> !outside(u, v, w, false)
            &&& none_negative ==> !outside(u, v, w, true)
        }),
{
    lemma_scaled_coordinates_sign(a, b, c);
}

/// A ray through a point of a shared edge is turned away by neither triangle.
/// Let the projected triangles `a b c` and `b a d` be of finite points, and
/// let the ray pass, in exact arithmetic, through the edge between `a` and
/// `b`: there are positive weights `alpha` and `beta` with `alpha * a + beta *
/// b` at the ray. Then the edge test without culling passes for both
/// triangles, wherever `c` and `d` lie.
pub proof fn lemma_point_on_shared_edge_is_kept(
    a: (Scalar, Scalar),
    b: (Scalar, Scalar),
    c: (Scalar, Scalar),
    d: (Scalar, Scalar),
    alpha: int,
    beta: int,
)
    requires
        finite_point(a),
        finite_point(b),
        finite_point(c),
        finite_point(d),
        alpha > 0,
        beta > 0,
        alpha * a.0.value() + beta * b.0.value() == 0,
        alpha * a.1.value() + beta * b.1.value() == 0,
    ensures
        !outside(edge_functions(a, b, c).0, edge_functions(a, b, c).1, edge_functions(a, b, c).2, false),
        !outside(edge_functions(b, a, d).0, edge_functions(b, a, d).1, edge_functions(b, a, d).2, false),
{
    let (ax, ay) = (a.0.value(), a.1.value());
    let (bx, by) = (b.0.value(), b.1.value());
    let (cx, cy) = (c.0.value(), c.1.value());
    let (dx, dy) = (d.0.value(), d.1.value());
    // the shared edge function is zero, and the other two agree in sign
    lemma_cross_of_opposed(alpha, ax, ay, beta, bx, by, bx, by);
    lemma_cross_of_opposed(alpha, ax, ay, beta, bx, by, cx, cy);
    lemma_cross_of_opposed(alpha, ax, ay, beta, bx, by, dx, dy);
    assert(bx * by - by * bx == 0) by (nonlinear_arith);
    assert(beta * 0 == 0);
    assert(beta * (bx * dy - by * dx) == alpha * (dx * ay - dy * ax)) by (nonlinear_arith)
        requires
            alpha * (ax * dy - ay * dx) == beta * (dx * by - dy * bx),
    ;
    assert(alpha * (bx * ay - by * ax) == 0) by (nonlinear_arith)
        requires
            alpha * (ax * by - ay * bx) == 0,
    ;
    lemma_same_sign(alpha, exact_edge(b, a), 1, 0);
    lemma_same_sign(alpha, exact_edge(a, c), beta, exact_edge(c, b));
    lemma_same_sign(beta, exact_edge(b, d), alpha, exact_edge(d, a));
    assert(exact_edge(a, b) == -exact_edge(b, a)) by (nonlinear_arith)
        requires
            exact_edge(a, b) == ax * by - ay * bx,
            exact_edge(b, a) == bx * ay - by * ax,
    ;
    lemma_inside_passes_edge_test(a, b, c);
    lemma_inside_passes_edge_test(b, a, d);
}

/// With `alpha * a + beta * b` zero, the cross product of `a` with any `c` is
/// that of `c` with `b` in the ratio of the weights.
pub proof fn lemma_cross_of_opposed(
    alpha: int,
    ax: int,
    ay: int,
    beta: int,
    bx: int,
    by: int,
    cx: int,
    cy: int,
)
    requires
        alpha * ax + beta * bx == 0,
        alpha * ay + beta * by == 0,
    ensures
        alpha * (ax * cy - ay * cx) == beta * (cx * by - cy * bx),
{
    let x = alpha * ax;
    let y = alpha * ay;
    assert(alpha * (ax * cy - ay * cx) == x * cy - y * cx) by (nonlinear_arith)
        requires
            x == alpha * ax,
            y == alpha * ay,
    ;
    let p = beta * bx;
    let q = beta * by;
    assert(x * cy - y * cx == q * cx - p * cy) by (nonlinear_arith)
        requires
            x == -p,
            y == -q,
    ;
    assert(q * cx - p * cy == beta * (cx * by - cy * bx)) by (nonlinear_arith)
        requires
            p == beta * bx,
            q == beta * by,
    ;
}

/// Two numbers with equal positive multiples lie on the same side of zero.
pub proof fn lemma_same_sign(m: int, x: int, n: int, y: int)
    requires
        m > 0,
        n > 0,
        m * x == n * y,
    ensures
        x > 0 <==> y > 0,
        x < 0 <==> y < 0,
        x == 0 <==> y == 0,
{
    assert((x > 0 ==> m * x > 0) && (x < 0 ==> m * x < 0) && (x == 0 ==> m * x == 0))
        by (nonlinear_arith)
        requires
            m > 0,
    ;
    assert((y > 0 ==> n * y > 0) && (y < 0 ==> n * y < 0) && (y == 0 ==> n * y == 0))
        by (nonlinear_arith)
        requires
            n > 0,
    ;
}

/// Two projected triangles `a b c` and `b a d` share the edge from `a` to `b`
/// and run along it in opposite directions. The scaled coordinate of that
/// edge is never negative in both and never positive in both, whichever of
/// the two precisions each triangle was computed in: a ray is on the outer
/// side of the shared edge for one of them at most, and on the inner side for
/// one of them at most.
pub proof fn lemma_shared_edge(
    a: (Scalar, Scalar),
    b: (Scalar, Scalar),
    c: (Scalar, Scalar),
    d: (Scalar, Scalar),
)
    requires
        finite_point(a),
        finite_point(b),
    ensures
        !(edge_functions(a, b, c).2.is_negative() && edge_functions(b, a, d).2.is_negative()),
        !(edge_functions(a, b, c).2.is_positive() && edge_functions(b, a, d).2.is_positive()),
{
    lemma_edge_function_sign(b, a);
    lemma_edge_function_sign(a, b);
    let (ax, ay, bx, by) = (a.0.value(), a.1.value(), b.0.value(), b.1.value());
    assert(bx * ay - by * ax == -(ax * by - ay * bx)) by (nonlinear_arith);
}

/// Watertightness along a shared edge. For two triangles `a b c` and `b a d`
/// and one ray, with the projections of `a` and `b` finite, the ray is never
/// turned away at the shared edge by both triangles: the scaled coordinate of
/// that edge is never negative in both, and never positive in both.
pub proof fn lemma_shared_edge_is_watertight(
    origin: Vector3,
    direction: Vector3,
    a: Vector3,
    b: Vector3,
    c: Vector3,
    d: Vector3,
)
    requires
        finite_point(projected(a, origin, direction)),
        finite_point(projected(b, origin, direction)),
    ensures
        ({
            let first = edge_functions(
                projected(a, origin, direction),
                projected(b, origin, direction),
                projected(c, origin, direction),
            );
            let second = edge_functions(
                projected(b, origin, direction),
                projected(a, origin, direction),
                projected(d, origin, direction),
            );
            &&& !(first.2.is_negative() && second.2.is_negative())
            &&& !(first.2.is_positive() && second.2.is_positive())
        }),
{
    lemma_shared_edge(
        projected(a, origin, direction),
        projected(b, origin, direction),
        projected(c, origin, direction),
        projected(d, origin, direction),
    );
}

/// A hit no part of which is a number below zero: each of `u`, `v`, `w` and
/// `t` is at least zero, or a NaN.
pub open spec fn not_negative(hit: (Scalar, Scalar, Scalar, Scalar)) -> bool {
    !hit.0.is_negative() && !hit.1.is_negative() && !hit.2.is_negative() && !hit.3.is_negative()
}

/// A hit whose weights are finite and not all zero, as they are unless the
/// arithmetic ran out of range or met a NaN.
pub open spec fn regular_weights(hit: (Scalar, Scalar, Scalar, Scalar)) -> bool {
    hit.0.is_finite() && hit.1.is_finite() && hit.2.is_finite() && !(hit.0.is_zero()
        && hit.1.is_zero() && hit.2.is_zero())
}

/// A hit whose weights sum to one within a hundred-thousandth.
pub open spec fn weights_sum_to_one(hit: (Scalar, Scalar, Scalar, Scalar)) -> bool {
    -unit_one() <= 100000 * (hit.0.value() + hit.1.value() + hit.2.value() - unit_one())
        <= unit_one()
}

/// Where what the coordinates resolve to has finite weights that are not all
/// zero, the weights sum to one within one part in a hundred thousand.
pub proof fn lemma_resolved_weights_sum_to_one(
    u0: Scalar,
    v0: Scalar,
    w0: Scalar,
    az: Scalar,
    bz: Scalar,
    cz: Scalar,
    backface_culling: bool,
)
    requires
        match resolved(u0, v0, w0, az, bz, cz, backface_culling) {
            Some(hit) => regular_weights(hit),
            None => false,
        },
    ensures
        match resolved(u0, v0, w0, az, bz, cz, backface_culling) {
            Some(hit) => weights_sum_to_one(hit),
            None => true,
        },
{
    let uv = u0.sum(v0);
    let det0 = uv.sum(w0);
    let flip = det0.is_negative();
    let u = u0.sign_flipped_if(flip);
    let v = v0.sign_flipped_if(flip);
    let w = w0.sign_flipped_if(flip);
    let det = det0.sign_flipped_if(flip);
    let r = Scalar::one().quotient(det);
    let hu = u.product(r);
    let hv = v.product(r);
    let hw = w.product(r);
    assert(!outside(u0, v0, w0, backface_culling));
    assert(!det0.is_zero());
    u0.lemma_sum(v0);
    uv.lemma_sum(w0);
    det0.lemma_sign();
    det0.lemma_negation();
    u0.lemma_negation();
    v0.lemma_negation();
    w0.lemma_negation();
    uv.lemma_negation();
    det.lemma_sign();
    r.lemma_sign();
    Scalar::one().lemma_quotient(det);
    Scalar::one().lemma_value();
    u.lemma_product(r);
    v.lemma_product(r);
    w.lemma_product(r);
    hu.lemma_sign();
    hv.lemma_sign();
    hw.lemma_sign();
    assert(r.is_finite() && !r.sign());
    assert(det.is_finite());
    assert(det.is_positive());
    assert(!u.is_negative() && !v.is_negative() && !w.is_negative());
    u0.lemma_value();
    v0.lemma_value();
    w0.lemma_value();
    uv.lemma_value();
    det0.lemma_value();
    det.lemma_value();
    uv.lemma_sum_error(w0);
    u0.lemma_sum_error(v0);
    det.lemma_reciprocal_error();
    lemma_unit_one();
    let s1 = if flip {
        -uv.value()
    } else {
        uv.value()
    };
    lemma_weight_error(u, r);
    lemma_weight_error(v, r);
    lemma_weight_error(w, r);
    lemma_partition_of_unity(
        u.value(),
        v.value(),
        w.value(),
        s1,
        det.value(),
        r.value(),
        hu.value(),
        hv.value(),
        hw.value(),
    );
}

/// A weight that is not negative times a reciprocal that is not negative,
/// where the product is finite, lies within one part in two to the 24th of
/// the exact product, or within half a unit of it.
pub proof fn lemma_weight_error(x: Scalar, r: Scalar)
    requires
        !x.is_negative(),
        !x.is_nan(),
        !r.is_nan(),
        !r.sign(),
        x.product(r).is_finite(),
    ensures
        x.value() >= 0,
        r.value() >= 0,
        x.product(r).value() >= 0,
        -(x.value() * r.value() + 0x80_0000 * unit_one()) <= 0x100_0000 * (x.product(r).value()
            * unit_one() - x.value() * r.value()) <= x.value() * r.value() + 0x80_0000 * unit_one(),
{
    lemma_unit_one();
    r.lemma_sign();
    assert(x.value() * r.value() >= 0) by (nonlinear_arith)
        requires
            x.value() >= 0,
            r.value() >= 0,
    ;
    x.lemma_product_error(r);
}

/// The weights of a hit sum to one. Where the three weights are finite and
/// not all zero, which leaves out the hits of arithmetic that ran out of
/// range or met a NaN, `u + v + w` lies within a hundred-thousandth of one.
pub proof fn lemma_weights_sum_to_one(
    origin: Vector3,
    direction: Vector3,
    triangle: (Vector3, Vector3, Vector3),
    backface_culling: bool,
)
    requires
        match intersection(origin, direction, triangle, backface_culling) {
            Some(hit) => regular_weights(hit),
            None => false,
        },
    ensures
        match intersection(origin, direction, triangle, backface_culling) {
            Some(hit) => weights_sum_to_one(hit),
            None => true,
        },
{
    let a = projected(triangle.0, origin, direction);
    let b = projected(triangle.1, origin, direction);
    let c = projected(triangle.2, origin, direction);
    let (u, v, w) = edge_functions(a, b, c);
    lemma_resolved_weights_sum_to_one(
        u,
        v,
        w,
        depth(triangle.0, origin, direction),
        depth(triangle.1, origin, direction),
        depth(triangle.2, origin, direction),
        backface_culling,
    );
}

/// No hit lies behind the origin and none has a negative weight: each of
/// `u`, `v`, `w` and `t` is at least zero, or a NaN.
pub proof fn lemma_hit_is_not_negative(
    origin: Vector3,
    direction: Vector3,
    triangle: (Vector3, Vector3, Vector3),
    backface_culling: bool,
)
    ensures
        match intersection(origin, direction, triangle, backface_culling) {
            Some(hit) => not_negative(hit),
            None => true,
        },
{
    let a = projected(triangle.0, origin, direction);
    let b = projected(triangle.1, origin, direction);
    let c = projected(triangle.2, origin, direction);
    let (u, v, w) = edge_functions(a, b, c);
    lemma_resolved_is_not_negative(
        u,
        v,
        w,
        depth(triangle.0, origin, direction),
        depth(triangle.1, origin, direction),
        depth(triangle.2, origin, direction),
        backface_culling,
    );
}

} // verus!
