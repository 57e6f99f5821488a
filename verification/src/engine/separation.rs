//! What the separating-axis test says of rings that are apart, and of a ring
//! and its copy.

use crate::engine::geometry::{
    collide, displacement, edge_normal, edge_side, is_least_axis, lemma_least_axis_unique,
    lemma_max_shadow, lemma_min_shadow, max_shadow, min_shadow, on_axis, overlap_along, scaled,
    separated_along, shadow, successor, tested_axis, Point,
};
use vstd::prelude::*;

verus! {

/// The ring `vs` moved by `(dx, dy)`.
pub open spec fn shifted(vs: Seq<Point>, dx: int, dy: int) -> Seq<Point> {
    Seq::new(vs.len(), |i: int| Point { x: (vs[i].x + dx) as i32, y: (vs[i].y + dy) as i32 })
}

/// Whether the ring `vs` moved by `(dx, dy)` is still on the plane.
pub open spec fn shift_fits(vs: Seq<Point>, dx: int, dy: int) -> bool {
    forall|i: int|
        0 <= i < vs.len() ==> on_axis((#[trigger] vs[i]).x + dx) && on_axis(vs[i].y + dy)
}

/// The length of the projection of `vs` onto `axis`.
pub open spec fn width_along(vs: Seq<Point>, axis: (int, int)) -> int {
    max_shadow(vs, axis) - min_shadow(vs, axis)
}

/// How far a move by `(dx, dy)` carries a projection onto `axis`.
pub open spec fn advance(axis: (int, int), dx: int, dy: int) -> int {
    dx * axis.0 + dy * axis.1
}

/// Whether every edge of the ring has a vertex off its line: no edge is a
/// point, and the vertices are not all on one line.
pub open spec fn solid(vs: Seq<Point>) -> bool {
    &&& vs.len() >= 3
    &&& forall|i: int| 0 <= i < vs.len() ==> #[trigger] off_line(vs, i)
}

/// Whether some vertex is off the line of edge `i`.
pub open spec fn off_line(vs: Seq<Point>, i: int) -> bool {
    exists|j: int| 0 <= j < vs.len() && #[trigger] edge_side(vs, i, vs[j]) != 0
}

/// Rings that a tested axis separates do not collide, and have no
/// displacement.
pub proof fn lemma_apart(a: Seq<Point>, b: Seq<Point>, k: int)
    requires
        0 <= k < a.len() + b.len(),
        separated_along(a, b, tested_axis(a, b, k)),
    ensures
        !collide(a, b),
        displacement(a, b) is None,
{
}

/// Moving a ring moves its projections by the same amount.
pub proof fn lemma_shifted_shadows(vs: Seq<Point>, dx: int, dy: int, axis: (int, int))
    requires
        vs.len() > 0,
        shift_fits(vs, dx, dy),
    ensures
        min_shadow(shifted(vs, dx, dy), axis) == min_shadow(vs, axis) + advance(axis, dx, dy),
        max_shadow(shifted(vs, dx, dy), axis) == max_shadow(vs, axis) + advance(axis, dx, dy),
    decreases vs.len(),
{
    let moved = shifted(vs, dx, dy);
    assert(on_axis(vs.last().x + dx) && on_axis(vs.last().y + dy));
    assert(on_axis(vs[0].x + dx) && on_axis(vs[0].y + dy));
    assert(shadow(moved.last(), axis) == shadow(vs.last(), axis) + advance(axis, dx, dy))
        by (nonlinear_arith)
        requires
            moved.last().x == vs.last().x + dx,
            moved.last().y == vs.last().y + dy,
            shadow(moved.last(), axis) == moved.last().x * axis.0 + moved.last().y * axis.1,
            shadow(vs.last(), axis) == vs.last().x * axis.0 + vs.last().y * axis.1,
            advance(axis, dx, dy) == dx * axis.0 + dy * axis.1,
    ;
    if vs.len() > 1 {
        let rest = vs.drop_last();
        assert forall|i: int| 0 <= i < rest.len() implies on_axis((#[trigger] rest[i]).x + dx)
            && on_axis(rest[i].y + dy) by {
            assert(rest[i] == vs[i]);
        }
        lemma_shifted_shadows(rest, dx, dy, axis);
        assert(moved.drop_last() =~= shifted(rest, dx, dy));
    } else {
        assert(moved[0] == moved.last());
        assert(vs[0] == vs.last());
    }
}

/// A ring moved further along the normal of one of its edges than it is
/// wide there does not collide with the ring where it was.
pub proof fn lemma_moved_apart(a: Seq<Point>, dx: int, dy: int, i: int)
    requires
        0 <= i < a.len(),
        shift_fits(a, dx, dy),
        advance(edge_normal(a, i), dx, dy) > width_along(a, edge_normal(a, i)) || -advance(
            edge_normal(a, i),
            dx,
            dy,
        ) > width_along(a, edge_normal(a, i)),
    ensures
        !collide(a, shifted(a, dx, dy)),
        displacement(a, shifted(a, dx, dy)) is None,
{
    let b = shifted(a, dx, dy);
    let axis = edge_normal(a, i);
    lemma_shifted_shadows(a, dx, dy, axis);
    assert(axis == tested_axis(a, b, i));
    lemma_apart(a, b, i);
}

/// Along the normal of an edge, a ring is at least as wide as any vertex is
/// far from the edge's line.
proof fn lemma_width_covers_side(vs: Seq<Point>, i: int, j: int)
    requires
        0 <= i < vs.len(),
        0 <= j < vs.len(),
    ensures
        width_along(vs, edge_normal(vs, i)) >= edge_side(vs, i, vs[j]),
        width_along(vs, edge_normal(vs, i)) >= -edge_side(vs, i, vs[j]),
{
    let axis = edge_normal(vs, i);
    lemma_min_shadow(vs, axis);
    lemma_max_shadow(vs, axis);
    let s = vs[i];
    let e = successor(vs, i);
    let q = vs[j];
    assert(min_shadow(vs, axis) <= shadow(vs[i], axis) <= max_shadow(vs, axis));
    assert(min_shadow(vs, axis) <= shadow(vs[j], axis) <= max_shadow(vs, axis));
    assert(shadow(q, axis) - shadow(s, axis) == edge_side(vs, i, q)) by (nonlinear_arith)
        requires
            shadow(q, axis) == q.x * (s.y - e.y) + q.y * (e.x - s.x),
            shadow(s, axis) == s.x * (s.y - e.y) + s.y * (e.x - s.x),
            edge_side(vs, i, q) == (e.x - s.x) * (q.y - s.y) - (e.y - s.y) * (q.x - s.x),
    ;
}

/// Some axis is the first of least overlap among the first `m` tested.
proof fn lemma_least_axis_among(a: Seq<Point>, b: Seq<Point>, m: int) -> (k: int)
    requires
        1 <= m <= a.len() + b.len(),
    ensures
        0 <= k < m,
        forall|j: int|
            0 <= j < m ==> overlap_along(a, b, tested_axis(a, b, k)) <= overlap_along(
                a,
                b,
                #[trigger] tested_axis(a, b, j),
            ),
        forall|j: int|
            0 <= j < k ==> overlap_along(a, b, tested_axis(a, b, k)) < overlap_along(
                a,
                b,
                #[trigger] tested_axis(a, b, j),
            ),
    decreases m,
{
    if m == 1 {
        0
    } else {
        let k = lemma_least_axis_among(a, b, m - 1);
        if overlap_along(a, b, tested_axis(a, b, m - 1)) < overlap_along(
            a,
            b,
            tested_axis(a, b, k),
        ) {
            m - 1
        } else {
            k
        }
    }
}

/// Rings that collide have a displacement: the first axis of least overlap,
/// scaled by that overlap.
pub proof fn lemma_displacement_exists(a: Seq<Point>, b: Seq<Point>) -> (k: int)
    requires
        a.len() + b.len() > 0,
        collide(a, b),
    ensures
        is_least_axis(a, b, k),
        displacement(a, b) == Some(
            scaled(tested_axis(a, b, k), overlap_along(a, b, tested_axis(a, b, k))),
        ),
{
    let k = lemma_least_axis_among(a, b, (a.len() + b.len()) as int);
    assert(is_least_axis(a, b, k));
    let chosen = choose|c: int| is_least_axis(a, b, c);
    lemma_least_axis_unique(a, b, k, chosen);
    k
}

/// A solid ring collides with itself, and the displacement is not zero: it
/// is the normal of one of the ring's edges, scaled by the ring's width
/// along that normal, which is the least such width. The ring moved by the
/// displacement no longer overlaps the ring along the normal; and unless
/// the normal is of length one, where the two still touch, they do not
/// collide.
pub proof fn lemma_copy_displaced(a: Seq<Point>) -> (k: int)
    requires
        solid(a),
    ensures
        collide(a, a),
        0 <= k < a.len(),
        is_least_axis(a, a, k),
        displacement(a, a) == Some(
            scaled(edge_normal(a, k), width_along(a, edge_normal(a, k))),
        ),
        width_along(a, edge_normal(a, k)) > 0,
        edge_normal(a, k) != (0int, 0int),
        displacement(a, a) != Some((0int, 0int)),
        forall|j: int|
            0 <= j < a.len() ==> width_along(a, edge_normal(a, k)) <= width_along(
                a,
                #[trigger] edge_normal(a, j),
            ),
        ({
            let v = displacement(a, a)->0;
            let axis = edge_normal(a, k);
            shift_fits(a, v.0, v.1) ==> {
                &&& overlap_along(a, shifted(a, v.0, v.1), axis) <= 0
                &&& axis.0 * axis.0 + axis.1 * axis.1 > 1 ==> !collide(a, shifted(a, v.0, v.1))
            }
        }),
{
    let n = a.len() as int;
    assert forall|j: int| 0 <= j < n + n implies !separated_along(
        a,
        a,
        #[trigger] tested_axis(a, a, j),
    ) by {
        lemma_min_shadow(a, tested_axis(a, a, j));
        lemma_max_shadow(a, tested_axis(a, a, j));
        assert(min_shadow(a, tested_axis(a, a, j)) <= shadow(a[0], tested_axis(a, a, j)));
    }
    let k = lemma_displacement_exists(a, a);
    if k >= n {
        assert(tested_axis(a, a, k - n) == tested_axis(a, a, k));
    }
    let axis = edge_normal(a, k);
    assert(axis == tested_axis(a, a, k));
    let w = width_along(a, axis);
    assert(overlap_along(a, a, axis) == w);
    assert(off_line(a, k));
    let j = choose|j: int| 0 <= j < a.len() && #[trigger] edge_side(a, k, a[j]) != 0;
    lemma_width_covers_side(a, k, j);
    assert(w > 0);
    if axis == (0int, 0int) {
        lemma_min_shadow(a, axis);
        lemma_max_shadow(a, axis);
        let lo = choose|i: int|
            0 <= i < a.len() && shadow(#[trigger] a[i], axis) == min_shadow(a, axis);
        let hi = choose|i: int|
            0 <= i < a.len() && shadow(#[trigger] a[i], axis) == max_shadow(a, axis);
        assert(shadow(a[lo], axis) == 0) by (nonlinear_arith)
            requires
                shadow(a[lo], axis) == a[lo].x * axis.0 + a[lo].y * axis.1,
                axis.0 == 0,
                axis.1 == 0,
        ;
        assert(shadow(a[hi], axis) == 0) by (nonlinear_arith)
            requires
                shadow(a[hi], axis) == a[hi].x * axis.0 + a[hi].y * axis.1,
                axis.0 == 0,
                axis.1 == 0,
        ;
    }
    let v = scaled(axis, w);
    assert(v != (0int, 0int)) by (nonlinear_arith)
        requires
            v.0 == w * axis.0,
            v.1 == w * axis.1,
            w > 0,
            axis.0 != 0 || axis.1 != 0,
    ;
    assert forall|j: int| 0 <= j < a.len() implies w <= width_along(
        a,
        #[trigger] edge_normal(a, j),
    ) by {
        assert(edge_normal(a, j) == tested_axis(a, a, j));
        assert(overlap_along(a, a, tested_axis(a, a, k)) <= overlap_along(
            a,
            a,
            tested_axis(a, a, j),
        ));
    }
    if shift_fits(a, v.0, v.1) {
        let b = shifted(a, v.0, v.1);
        lemma_shifted_shadows(a, v.0, v.1, axis);
        let length = axis.0 * axis.0 + axis.1 * axis.1;
        assert(advance(axis, v.0, v.1) == w * length) by (nonlinear_arith)
            requires
                advance(axis, v.0, v.1) == v.0 * axis.0 + v.1 * axis.1,
                v.0 == w * axis.0,
                v.1 == w * axis.1,
                length == axis.0 * axis.0 + axis.1 * axis.1,
        ;
        assert(length >= 1 && w * length >= w && (length > 1 ==> w * length > w))
            by (nonlinear_arith)
            requires
                length == axis.0 * axis.0 + axis.1 * axis.1,
                axis.0 != 0 || axis.1 != 0,
                w > 0,
        ;
        if length > 1 {
            assert(axis == tested_axis(a, b, k));
            lemma_apart(a, b, k);
        }
    }
    k
}

} // verus!
