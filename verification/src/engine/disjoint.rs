//! The separating-axis theorem: convex rings that some line separates are
//! separated along the normal of one of their edges, so that the collision
//! test of polygons finds them apart.

use crate::engine::convexity::{convex, faces_vertex, toward, winds};
use crate::engine::geometry::{
    collide, displacement, edge_normal, edge_side, lemma_max_shadow, lemma_min_shadow,
    lemma_successor, max_shadow, min_shadow, separated_along, shadow, successor, tested_axis,
    Point,
};
use crate::engine::vectors::{
    along, dot, lemma_combined_dot, lemma_cramer, lemma_turn_reverse, lemma_wedge_turn,
    lemma_weighted_sign, reverse, turn,
};
use vstd::prelude::*;

verus! {

/// How far vertex `j` of `b` lies ahead of vertex `i` of `a` in the
/// direction `d`.
pub open spec fn gap(a: Seq<Point>, b: Seq<Point>, d: (int, int), i: int, j: int) -> int {
    dot(d.0, d.1, b[j].x - a[i].x, b[j].y - a[i].y)
}

/// Whether every vertex of `b` lies strictly ahead of every vertex of `a`
/// in the direction `d`: a line across `d` has `a` on one side and `b` on
/// the other.
pub open spec fn parts(a: Seq<Point>, b: Seq<Point>, d: (int, int)) -> bool {
    forall|i: int, j: int|
        0 <= i < a.len() && 0 <= j < b.len() ==> #[trigger] gap(a, b, d, i, j) > 0
}

/// Whether some line has `a` strictly on one side and `b` on the other, as
/// it is for convex hulls that have no point in common.
pub open spec fn disjoint(a: Seq<Point>, b: Seq<Point>) -> bool {
    exists|dx: int, dy: int| parts(a, b, (dx, dy))
}

/// How far vertex `k` lies ahead of vertex `p` in the direction `c`.
pub open spec fn rise(vs: Seq<Point>, p: int, c: (int, int), k: int) -> int {
    dot(c.0, c.1, vs[k].x - vs[p].x, vs[k].y - vs[p].y)
}

/// Whether no vertex lies ahead of vertex `p` in the direction `c`.
pub open spec fn tops(vs: Seq<Point>, p: int, c: (int, int)) -> bool {
    forall|k: int| 0 <= k < vs.len() ==> #[trigger] rise(vs, p, c, k) <= 0
}

/// Whether some vertex lies strictly behind vertex `p` in the direction `c`.
pub open spec fn slopes(vs: Seq<Point>, p: int, c: (int, int)) -> bool {
    exists|k: int| 0 <= k < vs.len() && #[trigger] rise(vs, p, c, k) < 0
}

/// The normal of edge `i` that points out of the ring.
pub open spec fn outward(vs: Seq<Point>, ccw: bool, i: int) -> (int, int) {
    if ccw {
        reverse(edge_normal(vs, i))
    } else {
        edge_normal(vs, i)
    }
}

/// A direction between two directions that no vertex lies ahead of is such
/// a direction too.
proof fn lemma_tops_between(
    vs: Seq<Point>,
    p: int,
    u: (int, int),
    v: (int, int),
    z: (int, int),
    scale: int,
    s: int,
    t: int,
)
    requires
        tops(vs, p, u),
        tops(vs, p, v),
        scale > 0,
        s >= 0,
        t >= 0,
        scale * z.0 == s * u.0 + t * v.0,
        scale * z.1 == s * u.1 + t * v.1,
    ensures
        tops(vs, p, z),
{
    assert forall|k: int| 0 <= k < vs.len() implies #[trigger] rise(vs, p, z, k) <= 0 by {
        let (xx, xy) = (vs[k].x - vs[p].x, vs[k].y - vs[p].y);
        lemma_combined_dot(scale, s, t, u.0, u.1, v.0, v.1, z.0, z.1, xx, xy);
        assert(rise(vs, p, u, k) <= 0);
        assert(rise(vs, p, v, k) <= 0);
        lemma_weighted_sign(scale, s, t, rise(vs, p, z, k), rise(vs, p, u, k), rise(vs, p, v, k));
    }
}


/// How far a vertex lies ahead in a direction turned about.
proof fn lemma_rise_reverse(vs: Seq<Point>, p: int, c: (int, int), k: int)
    ensures
        rise(vs, p, reverse(c), k) == -rise(vs, p, c, k),
{
    let (xx, xy) = (vs[k].x - vs[p].x, vs[k].y - vs[p].y);
    assert((-c.0) * xx + (-c.1) * xy == -(c.0 * xx + c.1 * xy)) by (nonlinear_arith);
}

/// A direction in the wedge between two directions that no vertex lies
/// ahead of is such a direction too.
proof fn lemma_into_wedge(vs: Seq<Point>, p: int, u: (int, int), v: (int, int), z: (int, int))
    requires
        tops(vs, p, u),
        tops(vs, p, v),
        turn(u, v) > 0,
        turn(z, v) >= 0,
        turn(u, z) >= 0,
    ensures
        tops(vs, p, z),
{
    lemma_cramer(u.0, u.1, v.0, v.1, z.0, z.1);
    lemma_tops_between(vs, p, u, v, z, turn(u, v), turn(z, v), turn(u, z));
}

/// Where no vertex lies ahead of vertex `p` in either of two directions
/// with the direction `d` strictly between them, and some vertex lies
/// behind in the first, the two directions are less than half a turn
/// apart.
proof fn lemma_corner_opens(
    vs: Seq<Point>,
    p: int,
    d: (int, int),
    right: (int, int),
    left: (int, int),
)
    requires
        tops(vs, p, right),
        tops(vs, p, left),
        slopes(vs, p, right),
        turn(right, d) > 0,
        turn(d, left) > 0,
        turn(right, left) >= 0,
    ensures
        turn(right, left) > 0,
{
    if turn(right, left) == 0 {
        // Then `left` is `right` turned about, up to scale.
        lemma_cramer(right.0, right.1, d.0, d.1, left.0, left.1);
        lemma_turn_reverse(d, left);
        let k = choose|k: int| 0 <= k < vs.len() && #[trigger] rise(vs, p, right, k) < 0;
        let (xx, xy) = (vs[k].x - vs[p].x, vs[k].y - vs[p].y);
        lemma_combined_dot(
            turn(right, d),
            turn(left, d),
            0,
            right.0,
            right.1,
            d.0,
            d.1,
            left.0,
            left.1,
            xx,
            xy,
        );
        assert(rise(vs, p, left, k) <= 0);
        assert(false) by (nonlinear_arith)
            requires
                turn(right, d) * rise(vs, p, left, k) == turn(left, d) * rise(vs, p, right, k) + 0
                    * dot(d.0, d.1, xx, xy),
                turn(right, d) > 0,
                turn(left, d) < 0,
                rise(vs, p, right, k) < 0,
                rise(vs, p, left, k) <= 0,
        ;
    }
}

/// Of two directions less than half a turn apart, one at least makes an
/// acute angle with whatever a direction strictly between them does.
proof fn lemma_pick(right: (int, int), left: (int, int), d: (int, int), w: (int, int))
    requires
        turn(right, left) > 0,
        turn(right, d) > 0,
        turn(d, left) > 0,
        along(d, w) > 0,
    ensures
        along(right, w) > 0 || along(left, w) > 0,
{
    lemma_cramer(right.0, right.1, left.0, left.1, d.0, d.1);
    lemma_combined_dot(
        turn(right, left),
        turn(d, left),
        turn(right, d),
        right.0,
        right.1,
        left.0,
        left.1,
        d.0,
        d.1,
        w.0,
        w.1,
    );
    lemma_weighted_sign(
        turn(right, left),
        turn(d, left),
        turn(right, d),
        along(d, w),
        along(right, w),
        along(left, w),
    );
}

/// Where no vertex of `a` lies ahead of its vertex `p` in the direction
/// `c`, none of `b` lies behind its vertex `q`, and `q` lies ahead of `p`,
/// every vertex of `b` lies ahead of every vertex of `a`.
proof fn lemma_parts_from_corners(a: Seq<Point>, b: Seq<Point>, p: int, q: int, c: (int, int))
    requires
        0 <= p < a.len(),
        0 <= q < b.len(),
        tops(a, p, c),
        tops(b, q, reverse(c)),
        gap(a, b, c, p, q) > 0,
    ensures
        parts(a, b, c),
{
    assert forall|i: int, j: int| 0 <= i < a.len() && 0 <= j < b.len() implies #[trigger] gap(
        a,
        b,
        c,
        i,
        j,
    ) > 0 by {
        assert(rise(a, p, c, i) <= 0);
        assert(rise(b, q, reverse(c), j) <= 0);
        lemma_rise_reverse(b, q, c, j);
        let (cx, cy) = (c.0, c.1);
        let (bjx, bjy, bqx, bqy) = (b[j].x as int, b[j].y as int, b[q].x as int, b[q].y as int);
        let (aix, aiy, apx, apy) = (a[i].x as int, a[i].y as int, a[p].x as int, a[p].y as int);
        assert(cx * (bjx - aix) + cy * (bjy - aiy) == (cx * (bjx - bqx) + cy * (bjy - bqy)) + (cx
            * (bqx - apx) + cy * (bqy - apy)) - (cx * (aix - apx) + cy * (aiy - apy)))
            by (nonlinear_arith);
    }
}

/// Rings that a direction parts, one way or the other, are separated along
/// it.
proof fn lemma_parts_separated(a: Seq<Point>, b: Seq<Point>, n: (int, int))
    requires
        a.len() > 0,
        b.len() > 0,
        parts(a, b, n) || parts(a, b, reverse(n)),
    ensures
        separated_along(a, b, n),
{
    lemma_min_shadow(a, n);
    lemma_max_shadow(a, n);
    lemma_min_shadow(b, n);
    lemma_max_shadow(b, n);
    if parts(a, b, n) {
        let i = choose|i: int| 0 <= i < a.len() && shadow(#[trigger] a[i], n) == max_shadow(a, n);
        let j = choose|j: int| 0 <= j < b.len() && shadow(#[trigger] b[j], n) == min_shadow(b, n);
        assert(gap(a, b, n, i, j) > 0);
        assert(gap(a, b, n, i, j) == shadow(b[j], n) - shadow(a[i], n)) by (nonlinear_arith)
            requires
                gap(a, b, n, i, j) == n.0 * (b[j].x - a[i].x) + n.1 * (b[j].y - a[i].y),
                shadow(b[j], n) == b[j].x * n.0 + b[j].y * n.1,
                shadow(a[i], n) == a[i].x * n.0 + a[i].y * n.1,
        ;
    } else {
        let i = choose|i: int| 0 <= i < a.len() && shadow(#[trigger] a[i], n) == min_shadow(a, n);
        let j = choose|j: int| 0 <= j < b.len() && shadow(#[trigger] b[j], n) == max_shadow(b, n);
        assert(gap(a, b, reverse(n), i, j) > 0);
        assert(gap(a, b, reverse(n), i, j) == shadow(a[i], n) - shadow(b[j], n))
            by (nonlinear_arith)
            requires
                gap(a, b, reverse(n), i, j) == (-n.0) * (b[j].x - a[i].x) + (-n.1) * (b[j].y
                    - a[i].y),
                shadow(b[j], n) == b[j].x * n.0 + b[j].y * n.1,
                shadow(a[i], n) == a[i].x * n.0 + a[i].y * n.1,
        ;
    }
}

/// Rings that a direction parts are parted, one way or the other, by every
/// direction along it.
proof fn lemma_parallel_parts(a: Seq<Point>, b: Seq<Point>, d: (int, int), c: (int, int))
    requires
        a.len() > 0,
        b.len() > 0,
        parts(a, b, d),
        turn(c, d) == 0,
        c != (0int, 0int),
    ensures
        parts(a, b, c) || parts(a, b, reverse(c)),
{
    // (c.c) d = (d.c) c, as c and d are along each other.
    let across = (-c.1, c.0);
    lemma_cramer(c.0, c.1, across.0, across.1, d.0, d.1);
    let square = turn(c, across);
    let share = turn(d, across);
    assert(square == c.0 * c.0 + c.1 * c.1 && square > 0) by (nonlinear_arith)
        requires
            square == c.0 * across.1 - c.1 * across.0,
            across.0 == -c.1,
            across.1 == c.0,
            c.0 != 0 || c.1 != 0,
    ;
    assert(gap(a, b, d, 0, 0) > 0);
    assert forall|i: int, j: int| 0 <= i < a.len() && 0 <= j < b.len() implies square * gap(
        a,
        b,
        d,
        i,
        j,
    ) == share * #[trigger] gap(a, b, c, i, j) by {
        let (xx, xy) = (b[j].x - a[i].x, b[j].y - a[i].y);
        lemma_combined_dot(
            square,
            share,
            turn(c, d),
            c.0,
            c.1,
            across.0,
            across.1,
            d.0,
            d.1,
            xx,
            xy,
        );
    }
    assert(square * gap(a, b, d, 0, 0) == share * gap(a, b, c, 0, 0));
    assert(share != 0) by (nonlinear_arith)
        requires
            square * gap(a, b, d, 0, 0) == share * gap(a, b, c, 0, 0),
            square > 0,
            gap(a, b, d, 0, 0) > 0,
    ;
    if share > 0 {
        assert forall|i: int, j: int| 0 <= i < a.len() && 0 <= j < b.len() implies #[trigger] gap(
            a,
            b,
            c,
            i,
            j,
        ) > 0 by {
            assert(gap(a, b, d, i, j) > 0);
            assert(gap(a, b, c, i, j) > 0) by (nonlinear_arith)
                requires
                    square * gap(a, b, d, i, j) == share * gap(a, b, c, i, j),
                    square > 0,
                    share > 0,
                    gap(a, b, d, i, j) > 0,
            ;
        }
    } else {
        assert forall|i: int, j: int| 0 <= i < a.len() && 0 <= j < b.len() implies #[trigger] gap(
            a,
            b,
            reverse(c),
            i,
            j,
        ) > 0 by {
            assert(gap(a, b, d, i, j) > 0);
            let (xx, xy) = (b[j].x - a[i].x, b[j].y - a[i].y);
            assert((-c.0) * xx + (-c.1) * xy == -(c.0 * xx + c.1 * xy)) by (nonlinear_arith);
            assert(gap(a, b, c, i, j) < 0) by (nonlinear_arith)
                requires
                    square * gap(a, b, d, i, j) == share * gap(a, b, c, i, j),
                    square > 0,
                    share < 0,
                    gap(a, b, d, i, j) > 0,
            ;
        }
    }
}


/// The edge that leads into vertex `p`.
pub open spec fn edge_before(vs: Seq<Point>, p: int) -> int {
    if p == 0 {
        vs.len() - 1
    } else {
        p - 1
    }
}

/// Along the outward normal of an edge that ends or starts at vertex `p`, a
/// vertex lies as far ahead of `p` as it lies on the outer side of the edge.
proof fn lemma_edge_rise(vs: Seq<Point>, ccw: bool, i: int, p: int, k: int)
    requires
        0 <= i < vs.len(),
        0 <= p < vs.len(),
        0 <= k < vs.len(),
        p == i || vs[p] == successor(vs, i),
    ensures
        rise(vs, p, outward(vs, ccw, i), k) == -toward(ccw, edge_side(vs, i, vs[k])),
{
    let s = vs[i];
    let e = successor(vs, i);
    let x = vs[k];
    let n = edge_normal(vs, i);
    let (sx, sy, ex, ey, xx, xy) = (
        s.x as int,
        s.y as int,
        e.x as int,
        e.y as int,
        x.x as int,
        x.y as int,
    );
    assert((sy - ey) * (xx - sx) + (ex - sx) * (xy - sy) == (ex - sx) * (xy - sy) - (ey - sy) * (xx
        - sx)) by (nonlinear_arith);
    assert((sy - ey) * (xx - ex) + (ex - sx) * (xy - ey) == (ex - sx) * (xy - sy) - (ey - sy) * (xx
        - sx)) by (nonlinear_arith);
    assert(rise(vs, p, n, k) == edge_side(vs, i, x));
    lemma_rise_reverse(vs, p, n, k);
}

/// At the vertex of a convex ring that lies furthest ahead in a direction
/// `d`, the outward normals of the two edges that meet there have `d`
/// between them: one is to the right of `d` or along it, the other to the
/// left or along it, and the second is to the left of the first or along
/// it. No vertex lies ahead of that vertex in either, and some vertex lies
/// behind.
proof fn lemma_corner(vs: Seq<Point>, ccw: bool, d: (int, int), p: int) -> (r: (int, int))
    requires
        winds(vs, ccw),
        0 <= p < vs.len(),
        tops(vs, p, d),
    ensures
        0 <= r.0 < vs.len(),
        0 <= r.1 < vs.len(),
        tops(vs, p, outward(vs, ccw, r.0)),
        tops(vs, p, outward(vs, ccw, r.1)),
        slopes(vs, p, outward(vs, ccw, r.0)),
        slopes(vs, p, outward(vs, ccw, r.1)),
        turn(outward(vs, ccw, r.0), d) >= 0,
        turn(d, outward(vs, ccw, r.1)) >= 0,
        turn(outward(vs, ccw, r.0), outward(vs, ccw, r.1)) >= 0,
{
    let n = vs.len() as int;
    let before = edge_before(vs, p);
    let next = if p + 1 == n {
        0
    } else {
        p + 1
    };
    lemma_successor(vs, before);
    lemma_successor(vs, p);
    let o_in = outward(vs, ccw, before);
    let o_out = outward(vs, ccw, p);
    assert forall|k: int| 0 <= k < n implies #[trigger] rise(vs, p, o_in, k) <= 0 by {
        lemma_edge_rise(vs, ccw, before, p, k);
        assert(toward(ccw, edge_side(vs, before, vs[k])) >= 0);
    }
    assert forall|k: int| 0 <= k < n implies #[trigger] rise(vs, p, o_out, k) <= 0 by {
        lemma_edge_rise(vs, ccw, p, p, k);
        assert(toward(ccw, edge_side(vs, p, vs[k])) >= 0);
    }
    assert(faces_vertex(vs, ccw, before));
    let k_in = choose|j: int|
        0 <= j < vs.len() && toward(ccw, #[trigger] edge_side(vs, before, vs[j])) > 0;
    lemma_edge_rise(vs, ccw, before, p, k_in);
    assert(rise(vs, p, o_in, k_in) < 0);
    assert(faces_vertex(vs, ccw, p));
    let k_out = choose|j: int|
        0 <= j < vs.len() && toward(ccw, #[trigger] edge_side(vs, p, vs[j])) > 0;
    lemma_edge_rise(vs, ccw, p, p, k_out);
    assert(rise(vs, p, o_out, k_out) < 0);
    // The edges as vectors, into the vertex and out of it.
    let (ex, ey) = (vs[p].x - vs[before].x, vs[p].y - vs[before].y);
    let (fx, fy) = (vs[next].x - vs[p].x, vs[next].y - vs[p].y);
    assert(edge_normal(vs, before) == (-ey, ex));
    assert(edge_normal(vs, p) == (-fy, fx));
    assert(rise(vs, p, d, before) <= 0);
    assert(rise(vs, p, d, next) <= 0);
    assert(rise(vs, p, d, before) == -(d.0 * ex + d.1 * ey)) by (nonlinear_arith)
        requires
            rise(vs, p, d, before) == d.0 * (vs[before].x - vs[p].x) + d.1 * (vs[before].y
                - vs[p].y),
            ex == vs[p].x - vs[before].x,
            ey == vs[p].y - vs[before].y,
    ;
    assert(rise(vs, p, d, next) == d.0 * fx + d.1 * fy);
    let bend = edge_side(vs, before, vs[next]);
    assert(toward(ccw, bend) >= 0);
    assert(bend == ex * fy - ey * fx) by (nonlinear_arith)
        requires
            bend == (vs[p].x - vs[before].x) * (vs[next].y - vs[before].y) - (vs[p].y
                - vs[before].y) * (vs[next].x - vs[before].x),
            ex == vs[p].x - vs[before].x,
            ey == vs[p].y - vs[before].y,
            fx == vs[next].x - vs[p].x,
            fy == vs[next].y - vs[p].y,
    ;
    if ccw {
        assert(o_in == (ey, -ex));
        assert(o_out == (fy, -fx));
        assert(turn(o_in, d) == d.0 * ex + d.1 * ey) by (nonlinear_arith)
            requires
                turn(o_in, d) == ey * d.1 - (-ex) * d.0,
        ;
        assert(turn(d, o_out) == -(d.0 * fx + d.1 * fy)) by (nonlinear_arith)
            requires
                turn(d, o_out) == d.0 * (-fx) - d.1 * fy,
        ;
        assert(turn(o_in, o_out) == ex * fy - ey * fx) by (nonlinear_arith)
            requires
                turn(o_in, o_out) == ey * (-fx) - (-ex) * fy,
        ;
        (before, p)
    } else {
        assert(o_in == (-ey, ex));
        assert(o_out == (-fy, fx));
        assert(turn(o_out, d) == -(d.0 * fx + d.1 * fy)) by (nonlinear_arith)
            requires
                turn(o_out, d) == (-fy) * d.1 - fx * d.0,
        ;
        assert(turn(d, o_in) == d.0 * ex + d.1 * ey) by (nonlinear_arith)
            requires
                turn(d, o_in) == d.0 * ex - d.1 * (-ey),
        ;
        assert(turn(o_out, o_in) == -(ex * fy - ey * fx)) by (nonlinear_arith)
            requires
                turn(o_out, o_in) == (-fy) * ex - fx * (-ey),
        ;
        (p, before)
    }
}


/// A direction in which some vertex lies behind another is not null.
proof fn lemma_slopes_not_null(vs: Seq<Point>, p: int, c: (int, int))
    requires
        slopes(vs, p, c),
    ensures
        c != (0int, 0int),
{
    let k = choose|k: int| 0 <= k < vs.len() && #[trigger] rise(vs, p, c, k) < 0;
    if c == (0int, 0int) {
        assert(rise(vs, p, c, k) == 0) by (nonlinear_arith)
            requires
                rise(vs, p, c, k) == c.0 * (vs[k].x - vs[p].x) + c.1 * (vs[k].y - vs[p].y),
                c.0 == 0,
                c.1 == 0,
        ;
    }
}

/// Rings that the normal of an edge of `a` parts, one way or the other,
/// are separated along a tested axis.
proof fn lemma_own_edge_separates(a: Seq<Point>, b: Seq<Point>, ccw: bool, i: int) -> (k: int)
    requires
        0 <= i < a.len(),
        b.len() > 0,
        parts(a, b, outward(a, ccw, i)) || parts(a, b, reverse(outward(a, ccw, i))),
    ensures
        0 <= k < a.len() + b.len(),
        separated_along(a, b, tested_axis(a, b, k)),
{
    let n = edge_normal(a, i);
    assert(reverse(reverse(n)) == n);
    lemma_parts_separated(a, b, n);
    i
}

/// Rings that the normal of an edge of `b` parts, one way or the other,
/// are separated along a tested axis.
proof fn lemma_other_edge_separates(a: Seq<Point>, b: Seq<Point>, ccw: bool, j: int) -> (k: int)
    requires
        0 <= j < b.len(),
        a.len() > 0,
        parts(a, b, outward(b, ccw, j)) || parts(a, b, reverse(outward(b, ccw, j))),
    ensures
        0 <= k < a.len() + b.len(),
        separated_along(a, b, tested_axis(a, b, k)),
{
    let n = edge_normal(b, j);
    assert(reverse(reverse(n)) == n);
    lemma_parts_separated(a, b, n);
    a.len() + j
}

/// The vertex furthest ahead in a direction: no vertex lies ahead of it.
proof fn lemma_furthest(vs: Seq<Point>, d: (int, int)) -> (p: int)
    requires
        vs.len() > 0,
    ensures
        0 <= p < vs.len(),
        tops(vs, p, d),
{
    lemma_max_shadow(vs, d);
    let p = choose|i: int| 0 <= i < vs.len() && shadow(#[trigger] vs[i], d) == max_shadow(vs, d);
    assert forall|k: int| 0 <= k < vs.len() implies #[trigger] rise(vs, p, d, k) <= 0 by {
        assert(shadow(vs[k], d) <= max_shadow(vs, d));
        assert(rise(vs, p, d, k) == shadow(vs[k], d) - shadow(vs[p], d)) by (nonlinear_arith)
            requires
                rise(vs, p, d, k) == d.0 * (vs[k].x - vs[p].x) + d.1 * (vs[k].y - vs[p].y),
                shadow(vs[k], d) == vs[k].x * d.0 + vs[k].y * d.1,
                shadow(vs[p], d) == vs[p].x * d.0 + vs[p].y * d.1,
        ;
    }
    p
}

/// The separating-axis theorem. Convex rings that a line separates are
/// separated along the normal of an edge of one of them: they do not
/// collide, and have no displacement.
pub proof fn lemma_disjoint_apart(a: Seq<Point>, b: Seq<Point>) -> (k: int)
    requires
        convex(a),
        convex(b),
        disjoint(a, b),
    ensures
        0 <= k < a.len() + b.len(),
        separated_along(a, b, tested_axis(a, b, k)),
        !collide(a, b),
        displacement(a, b) is None,
{
    let ca = winds(a, true);
    let cb = winds(b, true);
    let (dx, dy) = choose|dx: int, dy: int| parts(a, b, (dx, dy));
    let d = (dx, dy);
    let e = reverse(d);
    // The corners of the two rings that face each other.
    let p = lemma_furthest(a, d);
    let q = lemma_furthest(b, e);
    let (ra, la) = lemma_corner(a, ca, d, p);
    let (rb, lb) = lemma_corner(b, cb, e, q);
    let a1 = outward(a, ca, ra);
    let a2 = outward(a, ca, la);
    let g1 = outward(b, cb, rb);
    let g2 = outward(b, cb, lb);
    let b1 = reverse(g1);
    let b2 = reverse(g2);
    lemma_slopes_not_null(a, p, a1);
    lemma_slopes_not_null(a, p, a2);
    lemma_slopes_not_null(b, q, g1);
    lemma_slopes_not_null(b, q, g2);
    lemma_turn_reverse(g1, d);
    lemma_turn_reverse(d, g2);
    lemma_turn_reverse(g1, g2);
    assert(reverse(b1) == g1 && reverse(b2) == g2);
    assert(turn(b1, d) == turn(g1, e));
    assert(turn(d, b2) == turn(e, g2));
    assert(turn(b1, b2) == turn(g1, g2));
    let w = (b[q].x - a[p].x, b[q].y - a[p].y);
    assert(gap(a, b, d, p, q) > 0);
    if turn(a1, d) == 0 {
        lemma_parallel_parts(a, b, d, a1);
        lemma_own_edge_separates(a, b, ca, ra)
    } else if turn(d, a2) == 0 {
        lemma_turn_reverse(d, a2);
        lemma_parallel_parts(a, b, d, a2);
        lemma_own_edge_separates(a, b, ca, la)
    } else if turn(g1, e) == 0 {
        lemma_parallel_parts(a, b, d, g1);
        lemma_other_edge_separates(a, b, cb, rb)
    } else if turn(e, g2) == 0 {
        lemma_turn_reverse(d, g2);
        lemma_turn_reverse(g2, d);
        lemma_parallel_parts(a, b, d, g2);
        lemma_other_edge_separates(a, b, cb, lb)
    } else {
        lemma_corner_opens(a, p, d, a1, a2);
        lemma_corner_opens(b, q, e, g1, g2);
        lemma_turn_reverse(b1, a1);
        lemma_turn_reverse(a1, d);
        lemma_turn_reverse(a2, b2);
        lemma_turn_reverse(d, a2);
        // The nearer to `d` of the directions to its right, and to its left.
        let right_own = turn(b1, a1) >= 0;
        let left_own = turn(a2, b2) >= 0;
        let right = if right_own {
            a1
        } else {
            b1
        };
        let left = if left_own {
            a2
        } else {
            b2
        };
        if right_own {
            lemma_into_wedge(b, q, g1, e, reverse(a1));
        } else {
            lemma_turn_reverse(a1, b1);
            lemma_into_wedge(a, p, a1, d, b1);
        }
        if left_own {
            lemma_into_wedge(b, q, e, g2, reverse(a2));
        } else {
            lemma_turn_reverse(b2, a2);
            lemma_into_wedge(a, p, d, a2, b2);
        }
        assert(tops(a, p, right) && tops(b, q, reverse(right)));
        assert(tops(a, p, left) && tops(b, q, reverse(left)));
        // They are less than half a turn apart.
        if right_own && !left_own {
            lemma_wedge_turn(d, a2, b2, a1);
            lemma_turn_reverse(b2, a2);
            assert(turn(a1, b2) > 0) by (nonlinear_arith)
                requires
                    turn(d, a2) * turn(a1, b2) == turn(b2, a2) * turn(a1, d) + turn(d, b2) * turn(
                        a1,
                        a2,
                    ),
                    turn(d, a2) > 0,
                    turn(b2, a2) >= 0,
                    turn(a1, d) > 0,
                    turn(d, b2) > 0,
                    turn(a1, a2) > 0,
            ;
        } else if !right_own && left_own {
            lemma_wedge_turn(a1, d, b1, a2);
            lemma_turn_reverse(a1, b1);
            assert(turn(b1, a2) > 0) by (nonlinear_arith)
                requires
                    turn(a1, d) * turn(b1, a2) == turn(b1, d) * turn(a1, a2) + turn(a1, b1) * turn(
                        d,
                        a2,
                    ),
                    turn(a1, d) > 0,
                    turn(b1, d) > 0,
                    turn(a1, a2) > 0,
                    turn(a1, b1) >= 0,
                    turn(d, a2) > 0,
            ;
        }
        assert(turn(right, left) > 0);
        lemma_pick(right, left, d, w);
        let chosen_right = along(right, w) > 0;
        let c = if chosen_right {
            right
        } else {
            left
        };
        assert(gap(a, b, c, p, q) == along(c, w));
        lemma_parts_from_corners(a, b, p, q, c);
        if chosen_right {
            if right_own {
                lemma_own_edge_separates(a, b, ca, ra)
            } else {
                lemma_other_edge_separates(a, b, cb, rb)
            }
        } else {
            if left_own {
                lemma_own_edge_separates(a, b, ca, la)
            } else {
                lemma_other_edge_separates(a, b, cb, lb)
            }
        }
    }
}


/// Rings that are separated along some direction have a line between them.
pub proof fn lemma_separated_disjoint(a: Seq<Point>, b: Seq<Point>, n: (int, int))
    requires
        a.len() > 0,
        b.len() > 0,
        separated_along(a, b, n),
    ensures
        disjoint(a, b),
{
    lemma_min_shadow(a, n);
    lemma_max_shadow(a, n);
    lemma_min_shadow(b, n);
    lemma_max_shadow(b, n);
    if max_shadow(a, n) < min_shadow(b, n) {
        assert forall|i: int, j: int| 0 <= i < a.len() && 0 <= j < b.len() implies #[trigger] gap(
            a,
            b,
            n,
            i,
            j,
        ) > 0 by {
            assert(shadow(a[i], n) <= max_shadow(a, n));
            assert(min_shadow(b, n) <= shadow(b[j], n));
            assert(gap(a, b, n, i, j) == shadow(b[j], n) - shadow(a[i], n)) by (nonlinear_arith)
                requires
                    gap(a, b, n, i, j) == n.0 * (b[j].x - a[i].x) + n.1 * (b[j].y - a[i].y),
                    shadow(b[j], n) == b[j].x * n.0 + b[j].y * n.1,
                    shadow(a[i], n) == a[i].x * n.0 + a[i].y * n.1,
            ;
        }
        assert(parts(a, b, (n.0, n.1)));
    } else {
        let m = reverse(n);
        assert forall|i: int, j: int| 0 <= i < a.len() && 0 <= j < b.len() implies #[trigger] gap(
            a,
            b,
            m,
            i,
            j,
        ) > 0 by {
            assert(shadow(b[j], n) <= max_shadow(b, n));
            assert(min_shadow(a, n) <= shadow(a[i], n));
            assert(gap(a, b, m, i, j) == shadow(a[i], n) - shadow(b[j], n)) by (nonlinear_arith)
                requires
                    gap(a, b, m, i, j) == (-n.0) * (b[j].x - a[i].x) + (-n.1) * (b[j].y - a[i].y),
                    shadow(b[j], n) == b[j].x * n.0 + b[j].y * n.1,
                    shadow(a[i], n) == a[i].x * n.0 + a[i].y * n.1,
            ;
        }
        assert(parts(a, b, (m.0, m.1)));
    }
}

/// For convex rings the test is exact: they collide unless some line has
/// one of them strictly on either side.
pub proof fn lemma_collide_unless_disjoint(a: Seq<Point>, b: Seq<Point>)
    requires
        convex(a),
        convex(b),
    ensures
        collide(a, b) <==> !disjoint(a, b),
{
    if disjoint(a, b) {
        lemma_disjoint_apart(a, b);
    }
    if !collide(a, b) {
        let k = choose|k: int|
            0 <= k < a.len() + b.len() && separated_along(a, b, #[trigger] tested_axis(a, b, k));
        lemma_separated_disjoint(a, b, tested_axis(a, b, k));
    }
}

} // verus!
