//! The integer plane: points, the side of an edge on which a point lies,
//! projections onto the normals of edges, and what the separating-axis test
//! computes from them.
//!
//! Coordinates are `i32` values in fixed-point units of the caller's choice.
//! Everything computed here is a polynomial in the coordinates of degree at
//! most three, so `i128` holds every intermediate value exactly.

use vstd::prelude::*;

verus! {

/// A position on the integer plane.
#[derive(Clone, Copy, Debug, PartialEq, Eq, Hash, Structural)]
pub struct Point {
    pub x: i32,
    pub y: i32,
}

/// A translation of the plane, wide enough for any collision displacement.
#[derive(Clone, Copy, Debug, PartialEq, Eq, Structural)]
pub struct Vector {
    pub x: i128,
    pub y: i128,
}

impl View for Vector {
    type V = (int, int);

    open spec fn view(&self) -> (int, int) {
        (self.x as int, self.y as int)
    }
}

/// Which way a triangular tile points.
#[derive(Clone, Copy, Debug, PartialEq, Eq, Structural)]
pub enum TriangleOrientation {
    Up,
    Down,
}

impl TriangleOrientation {
    /// The orientation of the neighbouring tile in a row.
    pub open spec fn spec_opposite(&self) -> TriangleOrientation {
        match self {
            TriangleOrientation::Up => TriangleOrientation::Down,
            TriangleOrientation::Down => TriangleOrientation::Up,
        }
    }

    /// The orientation of the neighbouring tile in a row.
    #[verifier::when_used_as_spec(spec_opposite)]
    pub fn opposite(&self) -> (r: TriangleOrientation)
        ensures
            r == self.spec_opposite(),
    {
        match self {
            TriangleOrientation::Up => TriangleOrientation::Down,
            TriangleOrientation::Down => TriangleOrientation::Up,
        }
    }
}

/// The cross product of the edge `start -> end` with the vector from `start`
/// to `p`: positive when `p` lies to the left of the directed edge, negative
/// when it lies to the right, zero when the three points are collinear.
pub open spec fn side(start: Point, end: Point, p: Point) -> int {
    (end.x - start.x) * (p.y - start.y) - (end.y - start.y) * (p.x - start.x)
}

/// The direction of the edge `start -> end` turned a quarter turn
/// counter-clockwise. Its length is that of the edge: it is not normalised.
pub open spec fn normal(start: Point, end: Point) -> (int, int) {
    (start.y - end.y, end.x - start.x)
}

/// The projection of `p` onto `axis`, in units of the axis' length.
pub open spec fn shadow(p: Point, axis: (int, int)) -> int {
    p.x * axis.0 + p.y * axis.1
}

/// The vertex that follows vertex `i` around the ring `vs`.
pub open spec fn successor(vs: Seq<Point>, i: int) -> Point {
    vs[(i + 1) % (vs.len() as int)]
}

/// `side` for edge `i` of the ring `vs`.
pub open spec fn edge_side(vs: Seq<Point>, i: int, p: Point) -> int {
    side(vs[i], successor(vs, i), p)
}

/// `normal` of edge `i` of the ring `vs`.
pub open spec fn edge_normal(vs: Seq<Point>, i: int) -> (int, int) {
    normal(vs[i], successor(vs, i))
}

/// Whether `p` is on the same side of every edge of the ring as it is of the
/// first edge, a point on an edge's line counting as on its left.
pub open spec fn encloses(vs: Seq<Point>, p: Point) -> bool {
    forall|i: int|
        0 <= i < vs.len() ==> ((#[trigger] edge_side(vs, i, p)) >= 0) == (edge_side(vs, 0, p) >= 0)
}

/// The least projection of the points `vs` onto `axis`.
pub open spec fn min_shadow(vs: Seq<Point>, axis: (int, int)) -> int
    decreases vs.len(),
{
    if vs.len() == 0 {
        0
    } else if vs.len() == 1 {
        shadow(vs[0], axis)
    } else {
        let rest = min_shadow(vs.drop_last(), axis);
        let last = shadow(vs.last(), axis);
        if last < rest {
            last
        } else {
            rest
        }
    }
}

/// The greatest projection of the points `vs` onto `axis`.
pub open spec fn max_shadow(vs: Seq<Point>, axis: (int, int)) -> int
    decreases vs.len(),
{
    if vs.len() == 0 {
        0
    } else if vs.len() == 1 {
        shadow(vs[0], axis)
    } else {
        let rest = max_shadow(vs.drop_last(), axis);
        let last = shadow(vs.last(), axis);
        if last > rest {
            last
        } else {
            rest
        }
    }
}

/// Whether the projections of `a` and `b` onto `axis` have no point in
/// common.
pub open spec fn separated_along(a: Seq<Point>, b: Seq<Point>, axis: (int, int)) -> bool {
    max_shadow(b, axis) < min_shadow(a, axis) || max_shadow(a, axis) < min_shadow(b, axis)
}

/// The length of what the projections of `a` and `b` onto `axis` have in
/// common; negative when they are apart.
pub open spec fn overlap_along(a: Seq<Point>, b: Seq<Point>, axis: (int, int)) -> int {
    let hi = if max_shadow(a, axis) < max_shadow(b, axis) {
        max_shadow(a, axis)
    } else {
        max_shadow(b, axis)
    };
    let lo = if min_shadow(a, axis) > min_shadow(b, axis) {
        min_shadow(a, axis)
    } else {
        min_shadow(b, axis)
    };
    hi - lo
}

/// The `k`-th axis tested for the pair `(a, b)`: the normals of the edges of
/// `a` in vertex order, then those of `b`.
pub open spec fn tested_axis(a: Seq<Point>, b: Seq<Point>, k: int) -> (int, int) {
    if k < a.len() {
        edge_normal(a, k)
    } else {
        edge_normal(b, k - a.len())
    }
}

/// Whether no tested axis separates `a` from `b`.
pub open spec fn collide(a: Seq<Point>, b: Seq<Point>) -> bool {
    forall|k: int|
        0 <= k < a.len() + b.len() ==> !separated_along(a, b, #[trigger] tested_axis(a, b, k))
}

/// Whether `k` is the first tested axis along which the overlap is least.
pub open spec fn is_least_axis(a: Seq<Point>, b: Seq<Point>, k: int) -> bool {
    &&& 0 <= k < a.len() + b.len()
    &&& forall|j: int|
        0 <= j < a.len() + b.len() ==> overlap_along(a, b, tested_axis(a, b, k)) <= overlap_along(
            a,
            b,
            #[trigger] tested_axis(a, b, j),
        )
    &&& forall|j: int|
        0 <= j < k ==> overlap_along(a, b, tested_axis(a, b, k)) < overlap_along(
            a,
            b,
            #[trigger] tested_axis(a, b, j),
        )
}

/// The axis `axis` scaled by `amount`.
pub open spec fn scaled(axis: (int, int), amount: int) -> (int, int) {
    (amount * axis.0, amount * axis.1)
}

/// The minimum-translation vector of the pair `(a, b)`: nothing when some
/// tested axis separates them, else the first axis of least overlap scaled
/// by that overlap.
pub open spec fn displacement(a: Seq<Point>, b: Seq<Point>) -> Option<(int, int)> {
    if collide(a, b) && a.len() + b.len() > 0 {
        let k = choose|k: int| is_least_axis(a, b, k);
        Some(scaled(tested_axis(a, b, k), overlap_along(a, b, tested_axis(a, b, k))))
    } else {
        None
    }
}

/// Half the side of a triangular tile of side `size`.
pub open spec fn half_side(size: int) -> int {
    size / 2
}

/// Half the height of a triangular tile of side `size`: the side times
/// `sqrt(3) / 4`, rounded down.
pub open spec fn apothem(size: int) -> int {
    size * 4_330_127 / 10_000_000
}

/// Whether `v` is an `i32`.
pub open spec fn on_axis(v: int) -> bool {
    i32::MIN <= v <= i32::MAX
}

/// Whether the triangular tile of side `size` around `center` lies on the
/// plane.
pub open spec fn triangle_fits(size: int, center: Point) -> bool {
    &&& 0 <= size
    &&& on_axis(center.x - half_side(size))
    &&& on_axis(center.x + half_side(size))
    &&& on_axis(center.y - apothem(size))
    &&& on_axis(center.y + apothem(size))
}

/// The vertices of the triangular tile of side `size` whose bounding box is
/// centred at `center`, counter-clockwise from the apex.
pub open spec fn triangle(size: int, center: Point, orientation: TriangleOrientation) -> Seq<
    Point,
> {
    let left = (center.x - half_side(size)) as i32;
    let right = (center.x + half_side(size)) as i32;
    let top = (center.y + apothem(size)) as i32;
    let bottom = (center.y - apothem(size)) as i32;
    match orientation {
        TriangleOrientation::Up => seq![
            Point { x: center.x, y: top },
            Point { x: left, y: bottom },
            Point { x: right, y: bottom },
        ],
        TriangleOrientation::Down => seq![
            Point { x: center.x, y: bottom },
            Point { x: right, y: top },
            Point { x: left, y: top },
        ],
    }
}

/// Largest magnitude of a component of an edge normal.
pub const AXIS_LIMIT: i64 = 0xffff_ffff;

/// Largest magnitude of a projection onto an edge normal.
pub const SHADOW_LIMIT: i128 = 0x1_0000_0000_0000_0000;

/// The successor of the last vertex is the first; that of any other is the
/// one behind it.
pub proof fn lemma_successor(vs: Seq<Point>, i: int)
    requires
        0 <= i < vs.len(),
    ensures
        successor(vs, i) == if i + 1 == vs.len() {
            vs[0]
        } else {
            vs[i + 1]
        },
{
    if i + 1 == vs.len() {
        vstd::arithmetic::div_mod::lemma_mod_self_0(vs.len() as int);
    } else {
        vstd::arithmetic::div_mod::lemma_small_mod((i + 1) as nat, vs.len());
    }
}

/// A product is bounded by the product of the bounds of its factors.
pub(crate) proof fn lemma_product_bound(a: int, b: int, la: int, lb: int)
    by (nonlinear_arith)
    requires
        -la <= a <= la,
        -lb <= b <= lb,
    ensures
        -(la * lb) <= a * b <= la * lb,
{
}

/// The least projection is attained by some point and is below all others.
pub proof fn lemma_min_shadow(vs: Seq<Point>, axis: (int, int))
    requires
        vs.len() > 0,
    ensures
        exists|i: int| 0 <= i < vs.len() && shadow(#[trigger] vs[i], axis) == min_shadow(vs, axis),
        forall|i: int| 0 <= i < vs.len() ==> min_shadow(vs, axis) <= shadow(#[trigger] vs[i], axis),
    decreases vs.len(),
{
    if vs.len() == 1 {
        assert(shadow(vs[0], axis) == min_shadow(vs, axis));
    } else {
        let rest = vs.drop_last();
        lemma_min_shadow(rest, axis);
        let w = choose|i: int|
            0 <= i < rest.len() && shadow(#[trigger] rest[i], axis) == min_shadow(rest, axis);
        if shadow(vs.last(), axis) < min_shadow(rest, axis) {
            assert(shadow(vs[vs.len() - 1], axis) == min_shadow(vs, axis));
        } else {
            assert(rest[w] == vs[w]);
            assert(shadow(vs[w], axis) == min_shadow(vs, axis));
        }
        assert forall|i: int| 0 <= i < vs.len() implies min_shadow(vs, axis) <= shadow(
            #[trigger] vs[i],
            axis,
        ) by {
            if i < rest.len() {
                assert(rest[i] == vs[i]);
            }
        }
    }
}

/// The greatest projection is attained by some point and is above all others.
pub proof fn lemma_max_shadow(vs: Seq<Point>, axis: (int, int))
    requires
        vs.len() > 0,
    ensures
        exists|i: int| 0 <= i < vs.len() && shadow(#[trigger] vs[i], axis) == max_shadow(vs, axis),
        forall|i: int| 0 <= i < vs.len() ==> max_shadow(vs, axis) >= shadow(#[trigger] vs[i], axis),
    decreases vs.len(),
{
    if vs.len() == 1 {
        assert(shadow(vs[0], axis) == max_shadow(vs, axis));
    } else {
        let rest = vs.drop_last();
        lemma_max_shadow(rest, axis);
        let w = choose|i: int|
            0 <= i < rest.len() && shadow(#[trigger] rest[i], axis) == max_shadow(rest, axis);
        if shadow(vs.last(), axis) > max_shadow(rest, axis) {
            assert(shadow(vs[vs.len() - 1], axis) == max_shadow(vs, axis));
        } else {
            assert(rest[w] == vs[w]);
            assert(shadow(vs[w], axis) == max_shadow(vs, axis));
        }
        assert forall|i: int| 0 <= i < vs.len() implies max_shadow(vs, axis) >= shadow(
            #[trigger] vs[i],
            axis,
        ) by {
            if i < rest.len() {
                assert(rest[i] == vs[i]);
            }
        }
    }
}

/// At most one axis is the first of least overlap.
pub proof fn lemma_least_axis_unique(a: Seq<Point>, b: Seq<Point>, k1: int, k2: int)
    requires
        is_least_axis(a, b, k1),
        is_least_axis(a, b, k2),
    ensures
        k1 == k2,
{
    let first = overlap_along(a, b, tested_axis(a, b, k1));
    let second = overlap_along(a, b, tested_axis(a, b, k2));
    if k1 < k2 {
        assert(second < first);
        assert(first <= second);
    } else if k2 < k1 {
        assert(first < second);
        assert(second <= first);
    }
}

/// `side`, computed.
pub(crate) fn side_of(start: Point, end: Point, p: Point) -> (r: i128)
    ensures
        r == side(start, end, p),
{
    let ex: i128 = end.x as i128 - start.x as i128;
    let ey: i128 = end.y as i128 - start.y as i128;
    let px: i128 = p.x as i128 - start.x as i128;
    let py: i128 = p.y as i128 - start.y as i128;
    proof {
        lemma_product_bound(ex as int, py as int, 0xffff_ffff, 0xffff_ffff);
        lemma_product_bound(ey as int, px as int, 0xffff_ffff, 0xffff_ffff);
    }
    ex * py - ey * px
}

/// `shadow`, computed.
pub(crate) fn shadow_of(p: Point, ax: i64, ay: i64) -> (r: i128)
    requires
        -AXIS_LIMIT <= ax <= AXIS_LIMIT,
        -AXIS_LIMIT <= ay <= AXIS_LIMIT,
    ensures
        r == shadow(p, (ax as int, ay as int)),
        -SHADOW_LIMIT <= r <= SHADOW_LIMIT,
{
    proof {
        lemma_product_bound(p.x as int, ax as int, 0x8000_0000, 0xffff_ffff);
        lemma_product_bound(p.y as int, ay as int, 0x8000_0000, 0xffff_ffff);
    }
    (p.x as i128) * (ax as i128) + (p.y as i128) * (ay as i128)
}

/// The least and the greatest projection of `vs` onto the axis `(ax, ay)`.
pub(crate) fn project(vs: &Vec<Point>, ax: i64, ay: i64) -> (r: (i128, i128))
    requires
        vs.len() > 0,
        -AXIS_LIMIT <= ax <= AXIS_LIMIT,
        -AXIS_LIMIT <= ay <= AXIS_LIMIT,
    ensures
        r.0 == min_shadow(vs@, (ax as int, ay as int)),
        r.1 == max_shadow(vs@, (ax as int, ay as int)),
        -SHADOW_LIMIT <= r.0 <= r.1 <= SHADOW_LIMIT,
{
    let ghost axis = (ax as int, ay as int);
    let first: i128 = shadow_of(vs[0], ax, ay);
    let mut lo: i128 = first;
    let mut hi: i128 = first;
    let mut i: usize = 1;
    while i < vs.len()
        invariant
            1 <= i <= vs.len(),
            axis == (ax as int, ay as int),
            -AXIS_LIMIT <= ax <= AXIS_LIMIT,
            -AXIS_LIMIT <= ay <= AXIS_LIMIT,
            lo == min_shadow(vs@.take(i as int), axis),
            hi == max_shadow(vs@.take(i as int), axis),
            -SHADOW_LIMIT <= lo <= hi <= SHADOW_LIMIT,
        decreases vs.len() - i,
    {
        let s: i128 = shadow_of(vs[i], ax, ay);
        proof {
            assert(vs@.take(i + 1).drop_last() =~= vs@.take(i as int));
            assert(vs@.take(i + 1).last() == vs@[i as int]);
        }
        if s < lo {
            lo = s;
        }
        if s > hi {
            hi = s;
        }
        i += 1;
    }
    proof {
        assert(vs@.take(vs.len() as int) =~= vs@);
    }
    (lo, hi)
}

/// The overlap of `a` and `b` along the axis `(ax, ay)`, or nothing when the
/// axis separates them.
pub(crate) fn overlap_on(a: &Vec<Point>, b: &Vec<Point>, ax: i64, ay: i64) -> (r: Option<i128>)
    requires
        a.len() > 0,
        b.len() > 0,
        -AXIS_LIMIT <= ax <= AXIS_LIMIT,
        -AXIS_LIMIT <= ay <= AXIS_LIMIT,
    ensures
        r is None <==> separated_along(a@, b@, (ax as int, ay as int)),
        r matches Some(o) ==> o == overlap_along(a@, b@, (ax as int, ay as int)) && 0 <= o <= 2
            * SHADOW_LIMIT,
{
    let (min_a, max_a) = project(a, ax, ay);
    let (min_b, max_b) = project(b, ax, ay);
    if !(max_b >= min_a && max_a >= min_b) {
        return None;
    }
    let hi: i128 = if max_a < max_b {
        max_a
    } else {
        max_b
    };
    let lo: i128 = if min_a > min_b {
        min_a
    } else {
        min_b
    };
    Some(hi - lo)
}

} // verus!
