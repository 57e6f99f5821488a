//! Vectors of the plane as pairs of integers: the dot product, the cross
//! product, and how both behave under combinations of vectors.

use vstd::prelude::*;

verus! {

/// The cross product of `(ux, uy)` and `(vx, vy)`.
pub open spec fn cross(ux: int, uy: int, vx: int, vy: int) -> int {
    ux * vy - uy * vx
}

/// The dot product of `(ux, uy)` and `(vx, vy)`.
pub open spec fn dot(ux: int, uy: int, vx: int, vy: int) -> int {
    ux * vx + uy * vy
}

/// The direction `c` turned about.
pub open spec fn reverse(c: (int, int)) -> (int, int) {
    (-c.0, -c.1)
}

/// The cross product of two directions.
pub open spec fn turn(u: (int, int), v: (int, int)) -> int {
    cross(u.0, u.1, v.0, v.1)
}

/// The dot product of two directions.
pub open spec fn along(u: (int, int), v: (int, int)) -> int {
    dot(u.0, u.1, v.0, v.1)
}

/// For vectors `u`, `v`, `z`: `(u x v) z = (z x v) u + (u x z) v`.
pub proof fn lemma_cramer(ux: int, uy: int, vx: int, vy: int, zx: int, zy: int)
    ensures
        cross(ux, uy, vx, vy) * zx == cross(zx, zy, vx, vy) * ux + cross(ux, uy, zx, zy) * vx,
        cross(ux, uy, vx, vy) * zy == cross(zx, zy, vx, vy) * uy + cross(ux, uy, zx, zy) * vy,
{
    assert((ux * vy - uy * vx) * zx == (zx * vy - zy * vx) * ux + (ux * zy - uy * zx) * vx)
        by (nonlinear_arith);
    assert((ux * vy - uy * vx) * zy == (zx * vy - zy * vx) * uy + (ux * zy - uy * zx) * vy)
        by (nonlinear_arith);
}

/// `(s a + t b) x = s (a x) + t (b x)`.
pub proof fn lemma_spread(s: int, a: int, t: int, b: int, x: int)
    ensures
        (s * a + t * b) * x == s * (a * x) + t * (b * x),
        x * (s * a + t * b) == s * (x * a) + t * (x * b),
{
    assert((s * a + t * b) * x == (s * a) * x + (t * b) * x) by (nonlinear_arith);
    assert((s * a) * x == s * (a * x)) by (nonlinear_arith);
    assert((t * b) * x == t * (b * x)) by (nonlinear_arith);
    assert(x * (s * a + t * b) == (s * a + t * b) * x) by (nonlinear_arith);
    assert(a * x == x * a && b * x == x * b) by (nonlinear_arith);
}

/// The dot product with a combination is the combination of the dot
/// products.
pub proof fn lemma_combined_dot(
    scale: int,
    s: int,
    t: int,
    ux: int,
    uy: int,
    vx: int,
    vy: int,
    zx: int,
    zy: int,
    xx: int,
    xy: int,
)
    requires
        scale * zx == s * ux + t * vx,
        scale * zy == s * uy + t * vy,
    ensures
        scale * dot(zx, zy, xx, xy) == s * dot(ux, uy, xx, xy) + t * dot(vx, vy, xx, xy),
{
    lemma_spread(s, ux, t, vx, xx);
    lemma_spread(s, uy, t, vy, xy);
    assert(scale * (zx * xx + zy * xy) == (scale * zx) * xx + (scale * zy) * xy)
        by (nonlinear_arith);
    let (m1, m2, m3, m4) = (ux * xx, uy * xy, vx * xx, vy * xy);
    assert(s * (m1 + m2) + t * (m3 + m4) == (s * m1 + t * m3) + (s * m2 + t * m4))
        by (nonlinear_arith);
}

/// The cross product with a combination is the combination of the cross
/// products.
pub proof fn lemma_combined_cross(
    scale: int,
    s: int,
    t: int,
    ux: int,
    uy: int,
    vx: int,
    vy: int,
    zx: int,
    zy: int,
    xx: int,
    xy: int,
)
    requires
        scale * zx == s * ux + t * vx,
        scale * zy == s * uy + t * vy,
    ensures
        scale * cross(xx, xy, zx, zy) == s * cross(xx, xy, ux, uy) + t * cross(xx, xy, vx, vy),
{
    lemma_spread(s, uy, t, vy, xx);
    lemma_spread(s, ux, t, vx, xy);
    assert(scale * (xx * zy - xy * zx) == xx * (scale * zy) - xy * (scale * zx))
        by (nonlinear_arith);
    let (m1, m2, m3, m4) = (xx * uy, xy * ux, xx * vy, xy * vx);
    assert(s * (m1 - m2) + t * (m3 - m4) == (s * m1 + t * m3) - (s * m2 + t * m4))
        by (nonlinear_arith);
}

/// A positive multiple of a sum of non-positive multiples is not positive.
pub proof fn lemma_weighted_sign(scale: int, s: int, t: int, z: int, u: int, v: int)
    by (nonlinear_arith)
    requires
        scale > 0,
        s >= 0,
        t >= 0,
        scale * z == s * u + t * v,
    ensures
        u <= 0 && v <= 0 ==> z <= 0,
        u >= 0 && v >= 0 ==> z >= 0,
        u > 0 && v >= 0 && s > 0 ==> z > 0,
        u >= 0 && v > 0 && t > 0 ==> z > 0,
{
}

/// Turning both directions about keeps their cross product, turning one
/// about negates it.
pub proof fn lemma_turn_reverse(u: (int, int), v: (int, int))
    ensures
        turn(reverse(u), reverse(v)) == turn(u, v),
        turn(reverse(u), v) == -turn(u, v),
        turn(u, reverse(v)) == -turn(u, v),
        turn(v, u) == -turn(u, v),
{
    let (ux, uy, vx, vy) = (u.0, u.1, v.0, v.1);
    assert((-ux) * (-vy) - (-uy) * (-vx) == ux * vy - uy * vx) by (nonlinear_arith);
    assert((-ux) * vy - (-uy) * vx == -(ux * vy - uy * vx)) by (nonlinear_arith);
    assert(ux * (-vy) - uy * (-vx) == -(ux * vy - uy * vx)) by (nonlinear_arith);
    assert(vx * uy - vy * ux == -(ux * vy - uy * vx)) by (nonlinear_arith);
}

/// For a direction `z` in the wedge from `u` to `v`, the cross product of
/// any direction with `z`, scaled, is a sum of its cross products with `u`
/// and `v`.
pub proof fn lemma_wedge_turn(u: (int, int), v: (int, int), z: (int, int), y: (int, int))
    ensures
        turn(u, v) * turn(y, z) == turn(z, v) * turn(y, u) + turn(u, z) * turn(y, v),
        turn(u, v) * turn(z, y) == turn(z, v) * turn(u, y) + turn(u, z) * turn(v, y),
{
    lemma_cramer(u.0, u.1, v.0, v.1, z.0, z.1);
    lemma_combined_cross(
        turn(u, v),
        turn(z, v),
        turn(u, z),
        u.0,
        u.1,
        v.0,
        v.1,
        z.0,
        z.1,
        y.0,
        y.1,
    );
    lemma_turn_reverse(y, z);
    lemma_turn_reverse(y, u);
    lemma_turn_reverse(y, v);
    let (a, b, c) = (turn(y, z), turn(y, u), turn(y, v));
    let (k, s, t) = (turn(u, v), turn(z, v), turn(u, z));
    assert(k * (-a) == s * (-b) + t * (-c)) by (nonlinear_arith)
        requires
            k * a == s * b + t * c,
    ;
}

} // verus!
