//! Convex rings, and what containment means for them.
//!
//! A polygon's containment test compares the side of each edge on which a
//! point lies. For a convex ring that test is the geometric one: it accepts
//! every point strictly inside the ring and rejects every point that a line
//! separates from it.

use crate::engine::geometry::{
    apothem, edge_side, encloses, half_side, lemma_successor, side, successor, triangle,
    triangle_fits, Point, TriangleOrientation,
};
use crate::engine::vectors::{cross, lemma_combined_dot, lemma_cramer};
use vstd::prelude::*;

verus! {

/// `v` as seen from the inner side of a ring: itself for a ring that winds
/// counter-clockwise, its negative for one that winds clockwise.
pub open spec fn toward(ccw: bool, v: int) -> int {
    if ccw {
        v
    } else {
        -v
    }
}

/// Whether the ring is convex and winds the given way: every vertex is on
/// the inner side of every edge or on its line, and every edge has a vertex
/// strictly on its inner side.
pub open spec fn winds(vs: Seq<Point>, ccw: bool) -> bool {
    &&& vs.len() >= 3
    &&& forall|i: int, j: int|
        0 <= i < vs.len() && 0 <= j < vs.len() ==> toward(ccw, #[trigger] edge_side(vs, i, vs[j]))
            >= 0
    &&& forall|i: int| 0 <= i < vs.len() ==> #[trigger] faces_vertex(vs, ccw, i)
}

/// Whether some vertex lies strictly on the inner side of edge `i`.
pub open spec fn faces_vertex(vs: Seq<Point>, ccw: bool, i: int) -> bool {
    exists|j: int| 0 <= j < vs.len() && toward(ccw, #[trigger] edge_side(vs, i, vs[j])) > 0
}

/// Whether the ring is convex and consistently wound.
pub open spec fn convex(vs: Seq<Point>) -> bool {
    winds(vs, true) || winds(vs, false)
}

/// Whether `p` is strictly on the inner side of every edge.
pub open spec fn strictly_inside(vs: Seq<Point>, ccw: bool, p: Point) -> bool {
    forall|i: int| 0 <= i < vs.len() ==> toward(ccw, #[trigger] edge_side(vs, i, p)) > 0
}

/// Whether every vertex lies strictly behind `p` in the direction `(a, b)`:
/// the line through `p` across that direction has the ring on one side.
pub open spec fn behind(vs: Seq<Point>, p: Point, a: int, b: int) -> bool {
    forall|j: int| 0 <= j < vs.len() ==> #[trigger] lean(vs, p, a, b, j) < 0
}

/// Whether a line through `p` has the whole ring strictly on one side, as
/// it is for every point outside a convex hull.
pub open spec fn strictly_outside(vs: Seq<Point>, p: Point) -> bool {
    exists|a: int, b: int| behind(vs, p, a, b)
}

/// How far vertex `j` lies ahead of `p` in the direction `(a, b)`.
pub open spec fn lean(vs: Seq<Point>, p: Point, a: int, b: int, j: int) -> int {
    a * (vs[j].x - p.x) + b * (vs[j].y - p.y)
}

/// The cross product of the vectors from `p` to vertex `i` and to vertex `j`.
pub open spec fn swing(vs: Seq<Point>, p: Point, i: int, j: int) -> int {
    cross(vs[i].x - p.x, vs[i].y - p.y, vs[j].x - p.x, vs[j].y - p.y)
}

/// The sum of `edge_side` at `p` over the first `m` edges.
pub open spec fn total_side(vs: Seq<Point>, p: Point, m: int) -> int
    decreases m,
{
    if m <= 0 {
        0
    } else {
        total_side(vs, p, m - 1) + edge_side(vs, m - 1, p)
    }
}

/// A point strictly inside a convex ring is contained.
pub proof fn lemma_inside_contained(vs: Seq<Point>, ccw: bool, p: Point)
    requires
        winds(vs, ccw),
        strictly_inside(vs, ccw, p),
    ensures
        encloses(vs, p),
{
    assert(toward(ccw, edge_side(vs, 0, p)) > 0);
    assert forall|i: int| 0 <= i < vs.len() implies ((#[trigger] edge_side(vs, i, p)) >= 0) == (
    edge_side(vs, 0, p) >= 0) by {
        assert(toward(ccw, edge_side(vs, i, p)) > 0);
    }
}

/// `side` at `p` is the cross product of the vectors from `p` to the edge's
/// start and to its end.
proof fn lemma_side_is_cross(s: Point, e: Point, p: Point)
    ensures
        side(s, e, p) == cross(s.x - p.x, s.y - p.y, e.x - p.x, e.y - p.y),
{
    let (sx, sy, ex, ey, px, py) = (
        s.x as int,
        s.y as int,
        e.x as int,
        e.y as int,
        p.x as int,
        p.y as int,
    );
    assert((ex - sx) * (py - sy) - (ey - sy) * (px - sx) == (sx - px) * (ey - py) - (sy - py) * (ex
        - px)) by (nonlinear_arith);
}

/// For vectors `u`, `v`, `w` and a direction `d`:
/// `(d.v)(u x w) = (d.u)(v x w) + (d.w)(u x v)`.
proof fn lemma_cross_chain(
    a: int,
    b: int,
    ux: int,
    uy: int,
    vx: int,
    vy: int,
    wx: int,
    wy: int,
)
    ensures
        (a * vx + b * vy) * cross(ux, uy, wx, wy) == (a * ux + b * uy) * cross(vx, vy, wx, wy) + (a
            * wx + b * wy) * cross(ux, uy, vx, vy),
{
    // (u x w) v = (v x w) u + (u x v) w, then the dot product of both sides
    // with d.
    lemma_cramer(ux, uy, wx, wy, vx, vy);
    lemma_combined_dot(
        cross(ux, uy, wx, wy),
        cross(vx, vy, wx, wy),
        cross(ux, uy, vx, vy),
        ux,
        uy,
        wx,
        wy,
        vx,
        vy,
        a,
        b,
    );
    let (k, s, t) = (cross(ux, uy, wx, wy), cross(vx, vy, wx, wy), cross(ux, uy, vx, vy));
    assert(k * (vx * a + vy * b) == (a * vx + b * vy) * k) by (nonlinear_arith);
    assert(s * (ux * a + uy * b) == (a * ux + b * uy) * s) by (nonlinear_arith);
    assert(t * (wx * a + wy * b) == (a * wx + b * wy) * t) by (nonlinear_arith);
}

/// Among vectors strictly behind a line, turning the same way twice is
/// turning that way.
proof fn lemma_turn_transitive(du: int, dv: int, dw: int, uv: int, vw: int, uw: int)
    by (nonlinear_arith)
    requires
        du < 0,
        dv < 0,
        dw < 0,
        dv * uw == du * vw + dw * uv,
    ensures
        uv >= 0 && vw >= 0 ==> uw >= 0,
        uv <= 0 && vw <= 0 ==> uw <= 0,
{
}

/// `swing` is transitive in its sign among vertices behind a line.
proof fn lemma_swing_transitive(
    vs: Seq<Point>,
    p: Point,
    a: int,
    b: int,
    ccw: bool,
    i: int,
    j: int,
    k: int,
)
    requires
        behind(vs, p, a, b),
        0 <= i < vs.len(),
        0 <= j < vs.len(),
        0 <= k < vs.len(),
        toward(ccw, swing(vs, p, i, j)) >= 0,
        toward(ccw, swing(vs, p, j, k)) >= 0,
    ensures
        toward(ccw, swing(vs, p, i, k)) >= 0,
{
    let (ux, uy) = (vs[i].x - p.x, vs[i].y - p.y);
    let (vx, vy) = (vs[j].x - p.x, vs[j].y - p.y);
    let (wx, wy) = (vs[k].x - p.x, vs[k].y - p.y);
    lemma_cross_chain(a, b, ux, uy, vx, vy, wx, wy);
    assert(lean(vs, p, a, b, i) < 0);
    assert(lean(vs, p, a, b, j) < 0);
    assert(lean(vs, p, a, b, k) < 0);
    lemma_turn_transitive(
        lean(vs, p, a, b, i),
        lean(vs, p, a, b, j),
        lean(vs, p, a, b, k),
        swing(vs, p, i, j),
        swing(vs, p, j, k),
        swing(vs, p, i, k),
    );
}

/// `edge_side` at `p` is the `swing` from the edge's start to its end.
proof fn lemma_edge_swing(vs: Seq<Point>, p: Point, i: int)
    requires
        0 <= i < vs.len(),
    ensures
        edge_side(vs, i, p) == swing(
            vs,
            p,
            i,
            if i + 1 == vs.len() {
                0
            } else {
                i + 1
            },
        ),
{
    lemma_successor(vs, i);
    lemma_side_is_cross(vs[i], successor(vs, i), p);
}

/// Where every edge of a ring turns the same way around `p` or not at all,
/// and the ring is behind a line through `p`, the first vertex turns that
/// way to every vertex.
proof fn lemma_fan_forward(vs: Seq<Point>, p: Point, a: int, b: int, ccw: bool, j: int)
    requires
        vs.len() >= 1,
        behind(vs, p, a, b),
        forall|i: int| 0 <= i < vs.len() ==> toward(ccw, #[trigger] edge_side(vs, i, p)) >= 0,
        0 <= j < vs.len(),
    ensures
        toward(ccw, swing(vs, p, 0, j)) >= 0,
    decreases j,
{
    if j == 0 {
        assert(swing(vs, p, 0, 0) == 0) by (nonlinear_arith)
            requires
                swing(vs, p, 0, 0) == (vs[0].x - p.x) * (vs[0].y - p.y) - (vs[0].y - p.y) * (vs[0].x
                    - p.x),
        ;
    } else {
        lemma_fan_forward(vs, p, a, b, ccw, j - 1);
        lemma_edge_swing(vs, p, j - 1);
        assert(toward(ccw, edge_side(vs, j - 1, p)) >= 0);
        lemma_swing_transitive(vs, p, a, b, ccw, 0, j - 1, j);
    }
}

/// And every vertex turns that way to the first.
proof fn lemma_fan_backward(vs: Seq<Point>, p: Point, a: int, b: int, ccw: bool, j: int)
    requires
        vs.len() >= 1,
        behind(vs, p, a, b),
        forall|i: int| 0 <= i < vs.len() ==> toward(ccw, #[trigger] edge_side(vs, i, p)) >= 0,
        0 <= j < vs.len(),
    ensures
        toward(ccw, swing(vs, p, j, 0)) >= 0,
    decreases vs.len() - j,
{
    lemma_edge_swing(vs, p, j);
    assert(toward(ccw, edge_side(vs, j, p)) >= 0);
    if j + 1 < vs.len() {
        lemma_fan_backward(vs, p, a, b, ccw, j + 1);
        lemma_swing_transitive(vs, p, a, b, ccw, j, j + 1, 0);
    }
}

/// So the vertices lie on one ray from `p`, and no edge turns around `p`.
proof fn lemma_no_turn(vs: Seq<Point>, p: Point, a: int, b: int, ccw: bool, i: int)
    requires
        vs.len() >= 1,
        behind(vs, p, a, b),
        forall|i: int| 0 <= i < vs.len() ==> toward(ccw, #[trigger] edge_side(vs, i, p)) >= 0,
        0 <= i < vs.len(),
    ensures
        edge_side(vs, i, p) == 0,
{
    let next = if i + 1 == vs.len() {
        0
    } else {
        i + 1
    };
    lemma_edge_swing(vs, p, i);
    lemma_fan_forward(vs, p, a, b, ccw, i);
    lemma_fan_backward(vs, p, a, b, ccw, i);
    lemma_fan_forward(vs, p, a, b, ccw, next);
    lemma_fan_backward(vs, p, a, b, ccw, next);
    let (ux, uy) = (vs[0].x - p.x, vs[0].y - p.y);
    let (vx, vy) = (vs[i].x - p.x, vs[i].y - p.y);
    let (wx, wy) = (vs[next].x - p.x, vs[next].y - p.y);
    assert(cross(ux, uy, vx, vy) == -cross(vx, vy, ux, uy)) by (nonlinear_arith)
        requires
            cross(ux, uy, vx, vy) == ux * vy - uy * vx,
            cross(vx, vy, ux, uy) == vx * uy - vy * ux,
    ;
    assert(cross(ux, uy, wx, wy) == -cross(wx, wy, ux, uy)) by (nonlinear_arith)
        requires
            cross(ux, uy, wx, wy) == ux * wy - uy * wx,
            cross(wx, wy, ux, uy) == wx * uy - wy * ux,
    ;
    assert(swing(vs, p, 0, i) == 0);
    assert(swing(vs, p, 0, next) == 0);
    // (d.u0)(vi x vnext) = (d.vi)(u0 x vnext) + (d.vnext)(vi x u0)
    lemma_cross_chain(a, b, vx, vy, ux, uy, wx, wy);
    assert(lean(vs, p, a, b, 0) < 0);
    assert(swing(vs, p, i, next) == 0) by (nonlinear_arith)
        requires
            lean(vs, p, a, b, 0) * swing(vs, p, i, next) == (a * vx + b * vy) * cross(
                ux,
                uy,
                wx,
                wy,
            ) + (a * wx + b * wy) * cross(vx, vy, ux, uy),
            cross(ux, uy, wx, wy) == 0,
            cross(vx, vy, ux, uy) == 0,
            lean(vs, p, a, b, 0) < 0,
    ;
}


/// How `side` changes with the point: by the cross product of the edge and
/// the step from `q` to `p`.
proof fn lemma_side_step(s: Point, e: Point, p: Point, q: Point)
    ensures
        side(s, e, p) - side(s, e, q) == cross(e.x - s.x, e.y - s.y, p.x - q.x, p.y - q.y),
{
    let (sx, sy, ex, ey) = (s.x as int, s.y as int, e.x as int, e.y as int);
    let (px, py, qx, qy) = (p.x as int, p.y as int, q.x as int, q.y as int);
    let at_p = (ex - sx) * (py - sy) - (ey - sy) * (px - sx);
    let at_q = (ex - sx) * (qy - sy) - (ey - sy) * (qx - sx);
    assert(at_p - at_q == (ex - sx) * (py - qy) - (ey - sy) * (px - qx)) by (nonlinear_arith)
        requires
            at_p == (ex - sx) * (py - sy) - (ey - sy) * (px - sx),
            at_q == (ex - sx) * (qy - sy) - (ey - sy) * (qx - sx),
    ;
}

/// Over the edges before vertex `m`, which lead from the first vertex to
/// vertex `m`, the sums of `edge_side` at two points differ by the cross
/// product of that way and the step between the points.
proof fn lemma_total_side_step(vs: Seq<Point>, p: Point, q: Point, m: int)
    requires
        0 <= m < vs.len(),
    ensures
        total_side(vs, p, m) - total_side(vs, q, m) == cross(
            vs[m].x - vs[0].x,
            vs[m].y - vs[0].y,
            p.x - q.x,
            p.y - q.y,
        ),
    decreases m,
{
    let (dx, dy) = (p.x - q.x, p.y - q.y);
    if m > 0 {
        lemma_total_side_step(vs, p, q, m - 1);
        lemma_successor(vs, m - 1);
        lemma_side_step(vs[m - 1], vs[m], p, q);
        let (ax, ay) = (vs[m - 1].x - vs[0].x, vs[m - 1].y - vs[0].y);
        let (bx, by) = (vs[m].x - vs[m - 1].x, vs[m].y - vs[m - 1].y);
        assert((ax + bx) * dy - (ay + by) * dx == (ax * dy - ay * dx) + (bx * dy - by * dx))
            by (nonlinear_arith);
        assert(edge_side(vs, m - 1, p) - edge_side(vs, m - 1, q) == cross(bx, by, dx, dy));
        assert(total_side(vs, p, m - 1) - total_side(vs, q, m - 1) == cross(ax, ay, dx, dy));
        assert(ax + bx == vs[m].x - vs[0].x);
        assert(ay + by == vs[m].y - vs[0].y);
    } else {
        assert(0 * dy - 0 * dx == 0);
    }
}

/// The sum of `edge_side` over all edges of a ring is the same at every
/// point: twice the area that the ring encloses.
pub proof fn lemma_total_side_constant(vs: Seq<Point>, p: Point, q: Point)
    requires
        vs.len() >= 1,
    ensures
        total_side(vs, p, vs.len() as int) == total_side(vs, q, vs.len() as int),
{
    let m = vs.len() - 1;
    lemma_total_side_step(vs, p, q, m);
    lemma_successor(vs, m);
    lemma_side_step(vs[m], vs[0], p, q);
    let (dx, dy) = (p.x - q.x, p.y - q.y);
    let (ax, ay) = (vs[m].x - vs[0].x, vs[m].y - vs[0].y);
    assert((ax * dy - ay * dx) + ((-ax) * dy - (-ay) * dx) == 0) by (nonlinear_arith);
}

/// A sum of terms that are all on one side of zero is on that side.
proof fn lemma_total_side_sign(vs: Seq<Point>, ccw: bool, p: Point, m: int)
    requires
        0 <= m <= vs.len(),
        forall|i: int| 0 <= i < m ==> toward(ccw, #[trigger] edge_side(vs, i, p)) >= 0,
    ensures
        toward(ccw, total_side(vs, p, m)) >= 0,
        forall|i: int|
            0 <= i < m && toward(ccw, #[trigger] edge_side(vs, i, p)) > 0 ==> toward(
                ccw,
                total_side(vs, p, m),
            ) > 0,
    decreases m,
{
    if m > 0 {
        lemma_total_side_sign(vs, ccw, p, m - 1);
        assert(toward(ccw, edge_side(vs, m - 1, p)) >= 0);
    }
}

/// A sum of terms none of which is on the inner side of zero is not either.
proof fn lemma_total_side_none(vs: Seq<Point>, ccw: bool, p: Point, m: int)
    requires
        0 <= m <= vs.len(),
        forall|i: int| 0 <= i < m ==> toward(ccw, #[trigger] edge_side(vs, i, p)) <= 0,
    ensures
        toward(ccw, total_side(vs, p, m)) <= 0,
    decreases m,
{
    if m > 0 {
        lemma_total_side_none(vs, ccw, p, m - 1);
        assert(toward(ccw, edge_side(vs, m - 1, p)) <= 0);
    }
}

/// The sum of `edge_side` over the edges of a convex ring is strictly on
/// the inner side of zero, at whatever point it is taken.
pub proof fn lemma_area_positive(vs: Seq<Point>, ccw: bool, p: Point)
    requires
        winds(vs, ccw),
    ensures
        toward(ccw, total_side(vs, p, vs.len() as int)) > 0,
{
    assert(faces_vertex(vs, ccw, 0));
    let j = choose|j: int| 0 <= j < vs.len() && toward(ccw, #[trigger] edge_side(vs, 0, vs[j])) > 0;
    let q = vs[j];
    assert forall|i: int| 0 <= i < vs.len() implies toward(ccw, #[trigger] edge_side(vs, i, q))
        >= 0 by {
        assert(toward(ccw, edge_side(vs, i, vs[j])) >= 0);
    }
    lemma_total_side_sign(vs, ccw, q, vs.len() as int);
    lemma_total_side_constant(vs, p, q);
}

/// A point that a line separates from a convex ring is not contained.
pub proof fn lemma_outside_not_contained(vs: Seq<Point>, p: Point)
    requires
        convex(vs),
        strictly_outside(vs, p),
    ensures
        !encloses(vs, p),
{
    let ccw = winds(vs, true);
    let (a, b) = choose|a: int, b: int| behind(vs, p, a, b);
    lemma_area_positive(vs, ccw, p);
    if encloses(vs, p) {
        let n = vs.len() as int;
        // Some edge has the point strictly on its inner side.
        if forall|i: int| 0 <= i < n ==> toward(ccw, #[trigger] edge_side(vs, i, p)) <= 0 {
            lemma_total_side_none(vs, ccw, p, n);
        }
        let k = choose|k: int| 0 <= k < n && !(toward(ccw, #[trigger] edge_side(vs, k, p)) <= 0);
        // Then so has every edge, or the point is on its line.
        assert forall|i: int| 0 <= i < n implies toward(ccw, #[trigger] edge_side(vs, i, p))
            >= 0 by {
            assert((edge_side(vs, i, p) >= 0) == (edge_side(vs, 0, p) >= 0));
            assert((edge_side(vs, k, p) >= 0) == (edge_side(vs, 0, p) >= 0));
        }
        // But no edge of a ring behind a line turns around the point.
        lemma_no_turn(vs, p, a, b, ccw, k);
    }
}


/// The sum of the first `m` weights.
pub open spec fn weight_sum(w: Seq<int>, m: int) -> int
    decreases m,
{
    if m <= 0 {
        0
    } else {
        weight_sum(w, m - 1) + w[m - 1]
    }
}

/// The sum over the first `m` vertices of the vertex's weight times its
/// distance from `p` along the x axis.
pub open spec fn pull_x(vs: Seq<Point>, w: Seq<int>, p: Point, m: int) -> int
    decreases m,
{
    if m <= 0 {
        0
    } else {
        pull_x(vs, w, p, m - 1) + w[m - 1] * (vs[m - 1].x - p.x)
    }
}

/// The same along the y axis.
pub open spec fn pull_y(vs: Seq<Point>, w: Seq<int>, p: Point, m: int) -> int
    decreases m,
{
    if m <= 0 {
        0
    } else {
        pull_y(vs, w, p, m - 1) + w[m - 1] * (vs[m - 1].y - p.y)
    }
}

/// Whether `p` is the mean of the vertices under the weights `w`, all of
/// them positive: a point of the inside of the ring's convex hull.
pub open spec fn balances(vs: Seq<Point>, w: Seq<int>, p: Point) -> bool {
    &&& w.len() == vs.len()
    &&& forall|j: int| 0 <= j < w.len() ==> #[trigger] w[j] > 0
    &&& pull_x(vs, w, p, vs.len() as int) == 0
    &&& pull_y(vs, w, p, vs.len() as int) == 0
}

/// The sum over the first `m` vertices of the vertex's weight times its
/// `edge_side` for edge `i`.
spec fn pull_side(vs: Seq<Point>, w: Seq<int>, i: int, m: int) -> int
    decreases m,
{
    if m <= 0 {
        0
    } else {
        pull_side(vs, w, i, m - 1) + w[m - 1] * edge_side(vs, i, vs[m - 1])
    }
}

/// The weighted sum of `edge_side` over the vertices is the sum of the
/// weights times `edge_side` at `p`, and the cross product of the edge with
/// the weighted sum of the vertices' distances from `p`.
proof fn lemma_pull_side(vs: Seq<Point>, w: Seq<int>, p: Point, i: int, m: int)
    requires
        0 <= i < vs.len(),
        0 <= m <= vs.len(),
        w.len() == vs.len(),
    ensures
        pull_side(vs, w, i, m) == weight_sum(w, m) * edge_side(vs, i, p) + cross(
            successor(vs, i).x - vs[i].x,
            successor(vs, i).y - vs[i].y,
            pull_x(vs, w, p, m),
            pull_y(vs, w, p, m),
        ),
    decreases m,
{
    let (ex, ey) = (successor(vs, i).x - vs[i].x, successor(vs, i).y - vs[i].y);
    if m > 0 {
        lemma_pull_side(vs, w, p, i, m - 1);
        let q = vs[m - 1];
        lemma_side_step(vs[i], successor(vs, i), q, p);
        let k = w[m - 1];
        let sp = edge_side(vs, i, p);
        let sq = edge_side(vs, i, q);
        let (dx, dy) = (q.x - p.x, q.y - p.y);
        let (gx, gy) = (pull_x(vs, w, p, m - 1), pull_y(vs, w, p, m - 1));
        let total = weight_sum(w, m - 1);
        assert(sq == sp + (ex * dy - ey * dx));
        assert(k * sq == k * sp + (ex * (k * dy) - ey * (k * dx))) by (nonlinear_arith)
            requires
                sq == sp + (ex * dy - ey * dx),
        ;
        assert((total + k) * sp == total * sp + k * sp) by (nonlinear_arith);
        assert(ex * (gy + k * dy) - ey * (gx + k * dx) == (ex * gy - ey * gx) + (ex * (k * dy) - ey
            * (k * dx))) by (nonlinear_arith);
    } else {
        assert(0 * edge_side(vs, i, p) + (ex * 0 - ey * 0) == 0) by (nonlinear_arith);
    }
}

/// For a convex ring that weighted sum is on the inner side of zero or
/// zero, and strictly on the inner side once a vertex is.
proof fn lemma_pull_side_sign(vs: Seq<Point>, ccw: bool, w: Seq<int>, i: int, m: int)
    requires
        winds(vs, ccw),
        0 <= i < vs.len(),
        0 <= m <= vs.len(),
        w.len() == vs.len(),
        forall|j: int| 0 <= j < w.len() ==> #[trigger] w[j] > 0,
    ensures
        toward(ccw, pull_side(vs, w, i, m)) >= 0,
        forall|j: int|
            0 <= j < m && toward(ccw, #[trigger] edge_side(vs, i, vs[j])) > 0 ==> toward(
                ccw,
                pull_side(vs, w, i, m),
            ) > 0,
    decreases m,
{
    if m > 0 {
        lemma_pull_side_sign(vs, ccw, w, i, m - 1);
        let k = w[m - 1];
        let sq = edge_side(vs, i, vs[m - 1]);
        assert(toward(ccw, sq) >= 0);
        assert(k > 0);
        if ccw {
            assert(k * sq >= 0 && (sq > 0 ==> k * sq > 0)) by (nonlinear_arith)
                requires
                    k > 0,
                    sq >= 0,
            ;
        } else {
            assert(k * sq <= 0 && (sq < 0 ==> k * sq < 0)) by (nonlinear_arith)
                requires
                    k > 0,
                    sq <= 0,
            ;
        }
    }
}

/// A sum of positive weights is positive.
proof fn lemma_weight_sum_positive(w: Seq<int>, m: int)
    requires
        1 <= m <= w.len(),
        forall|j: int| 0 <= j < w.len() ==> #[trigger] w[j] > 0,
    ensures
        weight_sum(w, m) > 0,
    decreases m,
{
    if m > 1 {
        lemma_weight_sum_positive(w, m - 1);
    } else {
        assert(weight_sum(w, 0) == 0);
    }
    assert(w[m - 1] > 0);
}

/// The mean of the vertices of a convex ring under positive weights is
/// strictly inside the ring, and so contained.
pub proof fn lemma_balance_inside(vs: Seq<Point>, ccw: bool, w: Seq<int>, p: Point)
    requires
        winds(vs, ccw),
        balances(vs, w, p),
    ensures
        strictly_inside(vs, ccw, p),
        encloses(vs, p),
{
    let n = vs.len() as int;
    lemma_weight_sum_positive(w, n);
    assert forall|i: int| 0 <= i < n implies toward(ccw, #[trigger] edge_side(vs, i, p)) > 0 by {
        lemma_pull_side(vs, w, p, i, n);
        lemma_pull_side_sign(vs, ccw, w, i, n);
        assert(faces_vertex(vs, ccw, i));
        let j = choose|j: int|
            0 <= j < vs.len() && toward(ccw, #[trigger] edge_side(vs, i, vs[j])) > 0;
        assert(toward(ccw, pull_side(vs, w, i, n)) > 0);
        let total = weight_sum(w, n);
        let sp = edge_side(vs, i, p);
        let (ex, ey) = (successor(vs, i).x - vs[i].x, successor(vs, i).y - vs[i].y);
        assert(ex * 0 - ey * 0 == 0);
        assert(pull_side(vs, w, i, n) == total * sp);
        if ccw {
            assert(sp > 0) by (nonlinear_arith)
                requires
                    total > 0,
                    total * sp > 0,
            ;
        } else {
            assert(sp < 0) by (nonlinear_arith)
                requires
                    total > 0,
                    total * sp < 0,
            ;
        }
    }
    lemma_inside_contained(vs, ccw, p);
}


/// The products of half a tile's width, and the width, with its height, each
/// taken forwards or backwards, in terms of one product.
proof fn lemma_tile_products(h: int, a: int)
    by (nonlinear_arith)
    requires
        h >= 1,
        a >= 1,
    ensures
        4 * (a * h) > 0,
        h * (2 * a) == 2 * (a * h),
        (2 * a) * h == 2 * (a * h),
        (-h) * (-(2 * a)) == 2 * (a * h),
        (-(2 * a)) * (-h) == 2 * (a * h),
        (-h) * (2 * a) == -(2 * (a * h)),
        (2 * a) * (-h) == -(2 * (a * h)),
        (-(2 * a)) * h == -(2 * (a * h)),
        h * (-(2 * a)) == -(2 * (a * h)),
        (2 * h) * (2 * a) == 4 * (a * h),
        (2 * a) * (2 * h) == 4 * (a * h),
        (-(2 * h)) * (-(2 * a)) == 4 * (a * h),
        (-(2 * a)) * (-(2 * h)) == 4 * (a * h),
        (-(2 * a)) * (2 * h) == -(4 * (a * h)),
        (2 * a) * (-(2 * h)) == -(4 * (a * h)),
        (2 * h) * (-(2 * a)) == -(4 * (a * h)),
        (-(2 * h)) * (2 * a) == -(4 * (a * h)),
{
}

/// A triangular tile with a width and a height is convex and winds
/// counter-clockwise.
pub proof fn lemma_triangle_winds(size: int, center: Point, orientation: TriangleOrientation)
    requires
        triangle_fits(size, center),
        half_side(size) >= 1,
        apothem(size) >= 1,
    ensures
        winds(triangle(size, center, orientation), true),
{
    let vs = triangle(size, center, orientation);
    let h = half_side(size);
    let a = apothem(size);
    lemma_successor(vs, 0);
    lemma_successor(vs, 1);
    lemma_successor(vs, 2);
    lemma_tile_products(h, a);
    assert forall|i: int, j: int| 0 <= i < 3 && 0 <= j < 3 implies toward(
        true,
        #[trigger] edge_side(vs, i, vs[j]),
    ) >= 0 && (j == (i + 2) % 3 ==> edge_side(vs, i, vs[j]) > 0) by {
        let s = vs[i];
        let e = successor(vs, i);
        let q = vs[j];
        assert(edge_side(vs, i, q) == (e.x - s.x) * (q.y - s.y) - (e.y - s.y) * (q.x - s.x));
        assert(0 * (q.y - s.y) == 0 && (e.y - s.y) * 0 == 0 && (e.x - s.x) * 0 == 0 && 0 * (q.x
            - s.x) == 0);
    }
    assert forall|i: int| 0 <= i < vs.len() implies #[trigger] faces_vertex(vs, true, i) by {
        let j = (i + 2) % 3;
        assert(toward(true, edge_side(vs, i, vs[j])) > 0);
    }
}

} // verus!
