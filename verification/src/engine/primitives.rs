//! Convex polygons: a ring of vertices with an identity of its own.

use crate::engine::geometry::{
    collide, displacement, edge_side, encloses, is_least_axis, lemma_least_axis_unique,
    lemma_product_bound, lemma_successor, overlap_along, overlap_on, separated_along, side_of,
    successor, tested_axis, triangle, triangle_fits, Point, TriangleOrientation, Vector,
    AXIS_LIMIT, SHADOW_LIMIT,
};
use vstd::prelude::*;
use vstd::std_specs::cmp::PartialEqSpecImpl;

verus! {

/// Hands out polygon identities: 1, 2, 3 and so on, each at most once.
#[derive(Debug)]
pub struct IdGenerator {
    next: usize,
}

impl IdGenerator {
    /// The identity that the next polygon gets.
    pub closed spec fn upcoming(&self) -> usize {
        self.next
    }

    /// A generator that has issued nothing yet.
    pub fn new() -> (g: Self)
        ensures
            g.upcoming() == 1,
    {
        IdGenerator { next: 1 }
    }

    /// Issues the upcoming identity, or nothing once `usize::MAX` is reached.
    pub fn issue(&mut self) -> (r: Option<usize>)
        ensures
            old(self).upcoming() < usize::MAX ==> {
                &&& r == Some(old(self).upcoming())
                &&& final(self).upcoming() == old(self).upcoming() + 1
            },
            old(self).upcoming() == usize::MAX ==> {
                &&& r is None
                &&& final(self).upcoming() == old(self).upcoming()
            },
    {
        if self.next == usize::MAX {
            None
        } else {
            let id: usize = self.next;
            self.next = id + 1;
            Some(id)
        }
    }
}

/// What a polygon is: its identity and its ring of vertices.
pub struct Shape {
    pub id: usize,
    pub vertices: Seq<Point>,
}

/// The shapes of the polygons `polygons`, in order.
pub open spec fn shapes(polygons: Seq<Polygon>) -> Seq<Shape> {
    Seq::new(polygons.len(), |i: int| polygons[i].shape())
}

/// A convex polygon: an identity and a ring of at least three vertices in
/// winding order. Convexity is the caller's business: it is not checked.
#[derive(Debug)]
pub struct Polygon {
    id: usize,
    vertices: Vec<Point>,
}

impl View for Polygon {
    type V = Seq<Point>;

    closed spec fn view(&self) -> Seq<Point> {
        self.vertices@
    }
}

/// The vertices of a triangular tile: see `triangle`. There are none when
/// `size` is negative or a vertex would fall off the plane.
pub fn triangle_corners(size: i32, center: Point, orientation: TriangleOrientation) -> (r: Option<
    Vec<Point>,
>)
    ensures
        r is Some <==> triangle_fits(size as int, center),
        r matches Some(v) ==> v@ == triangle(size as int, center, orientation),
{
    if size < 0 {
        return None;
    }
    let half: i64 = (size / 2) as i64;
    let rise: i64 = (size as i64) * 4_330_127 / 10_000_000;
    let left: i64 = center.x as i64 - half;
    let right: i64 = center.x as i64 + half;
    let top: i64 = center.y as i64 + rise;
    let bottom: i64 = center.y as i64 - rise;
    if left < i32::MIN as i64 || right > i32::MAX as i64 || bottom < i32::MIN as i64 || top
        > i32::MAX as i64 {
        return None;
    }
    let mut vertices: Vec<Point> = Vec::new();
    match orientation {
        TriangleOrientation::Up => {
            vertices.push(Point { x: center.x, y: top as i32 });
            vertices.push(Point { x: left as i32, y: bottom as i32 });
            vertices.push(Point { x: right as i32, y: bottom as i32 });
        },
        TriangleOrientation::Down => {
            vertices.push(Point { x: center.x, y: bottom as i32 });
            vertices.push(Point { x: right as i32, y: top as i32 });
            vertices.push(Point { x: left as i32, y: top as i32 });
        },
    }
    proof {
        assert(vertices@ =~= triangle(size as int, center, orientation));
    }
    Some(vertices)
}

impl Clone for Polygon {
    /// A polygon of the same identity and vertices.
    fn clone(&self) -> (r: Self)
        ensures
            r.shape() == self.shape(),
    {
        proof {
            use_type_invariant(self);
        }
        let vertices = self.vertices.clone();
        proof {
            assert(vertices@ =~= self.vertices@);
        }
        Polygon { id: self.id, vertices }
    }
}

impl PartialEq for Polygon {
    /// Polygons are equal when their identities are, whatever their
    /// vertices.
    fn eq(&self, other: &Self) -> (r: bool) {
        self.id == other.id
    }
}

impl PartialEqSpecImpl for Polygon {
    open spec fn obeys_eq_spec() -> bool {
        true
    }

    open spec fn eq_spec(&self, other: &Self) -> bool {
        self.spec_id() == other.spec_id()
    }
}

impl Eq for Polygon {

}

impl Polygon {
    /// A polygon has at least three vertices.
    #[verifier::type_invariant]
    spec fn well_formed(&self) -> bool {
        self.vertices@.len() >= 3
    }

    /// The polygon's identity.
    pub closed spec fn spec_id(&self) -> usize {
        self.id
    }

    /// The polygon's identity and vertices.
    pub open spec fn shape(&self) -> Shape {
        Shape { id: self.spec_id(), vertices: self@ }
    }

    /// The polygon with a fresh identity and the given ring of vertices.
    /// Fewer than three vertices are rejected, and so is every ring once the
    /// generator has run out of identities.
    pub fn new(vertices: Vec<Point>, ids: &mut IdGenerator) -> (r: Option<Polygon>)
        ensures
            r is Some <==> vertices@.len() >= 3 && old(ids).upcoming() < usize::MAX,
            r matches Some(p) ==> {
                &&& p@ == vertices@
                &&& p.spec_id() == old(ids).upcoming()
                &&& final(ids).upcoming() == old(ids).upcoming() + 1
            },
            r is None ==> final(ids).upcoming() == old(ids).upcoming(),
    {
        if vertices.len() < 3 {
            return None;
        }
        match ids.issue() {
            Some(id) => Some(Polygon { id, vertices }),
            None => None,
        }
    }

    /// The triangular tile of side `size` whose bounding box is centred at
    /// `center`, apex up or down. It is rejected when `size` is negative,
    /// when a vertex would fall off the plane, and when the generator has
    /// run out of identities.
    pub fn new_triangle(
        size: i32,
        center: Point,
        orientation: TriangleOrientation,
        ids: &mut IdGenerator,
    ) -> (r: Option<Polygon>)
        ensures
            r is Some <==> triangle_fits(size as int, center) && old(ids).upcoming() < usize::MAX,
            r matches Some(p) ==> {
                &&& p@ == triangle(size as int, center, orientation)
                &&& p.spec_id() == old(ids).upcoming()
                &&& final(ids).upcoming() == old(ids).upcoming() + 1
            },
            r is None ==> final(ids).upcoming() == old(ids).upcoming(),
    {
        match triangle_corners(size, center, orientation) {
            Some(vertices) => Polygon::new(vertices, ids),
            None => None,
        }
    }

    /// The polygon's identity.
    #[verifier::when_used_as_spec(spec_id)]
    pub fn id(&self) -> (r: usize)
        ensures
            r == self.spec_id(),
    {
        self.id
    }

    /// The vertices, in winding order.
    pub fn vertices(&self) -> (r: &Vec<Point>)
        ensures
            r@ == self@,
            r@.len() >= 3,
    {
        proof {
            use_type_invariant(self);
        }
        &self.vertices
    }

    /// The edges in winding order: each vertex paired with its successor,
    /// the last with the first.
    pub fn edges(&self) -> (r: Vec<(Point, Point)>)
        ensures
            r@.len() == self@.len(),
            forall|i: int|
                0 <= i < r@.len() ==> #[trigger] r@[i] == (self@[i], successor(self@, i)),
    {
        proof {
            use_type_invariant(self);
        }
        let n: usize = self.vertices.len();
        let mut edges: Vec<(Point, Point)> = Vec::new();
        let mut i: usize = 0;
        while i < n
            invariant
                n == self.vertices@.len(),
                i <= n,
                edges@.len() == i,
                forall|j: int|
                    0 <= j < i ==> #[trigger] edges@[j] == (
                        self.vertices@[j],
                        successor(self.vertices@, j),
                    ),
            decreases n - i,
        {
            let next: usize = if i + 1 == n {
                0
            } else {
                i + 1
            };
            proof {
                lemma_successor(self.vertices@, i as int);
            }
            edges.push((self.vertices[i], self.vertices[next]));
            i += 1;
        }
        edges
    }

    /// Whether `point` is on the same side of every edge. For a convex
    /// polygon this holds of every point strictly inside and of none that a
    /// line separates from the polygon: see `convexity`.
    pub fn contains_point(&self, point: Point) -> (r: bool)
        ensures
            r == encloses(self@, point),
    {
        proof {
            use_type_invariant(self);
        }
        let n: usize = self.vertices.len();
        proof {
            lemma_successor(self.vertices@, 0);
        }
        let first: bool = side_of(self.vertices[0], self.vertices[1], point) >= 0;
        let mut i: usize = 1;
        while i < n
            invariant
                n == self.vertices@.len(),
                n >= 3,
                1 <= i <= n,
                first == (edge_side(self.vertices@, 0, point) >= 0),
                forall|j: int|
                    0 <= j < i ==> ((#[trigger] edge_side(self.vertices@, j, point)) >= 0) == first,
            decreases n - i,
        {
            let next: usize = if i + 1 == n {
                0
            } else {
                i + 1
            };
            proof {
                lemma_successor(self.vertices@, i as int);
            }
            let sign: bool = side_of(self.vertices[i], self.vertices[next], point) >= 0;
            if sign != first {
                assert((edge_side(self.vertices@, i as int, point) >= 0) != first);
                return false;
            }
            i += 1;
        }
        true
    }

    /// The minimum-translation vector of `self` and `other` by the
    /// separating-axis test over the normals of the edges of both, or
    /// nothing when one of those axes separates them. For convex polygons
    /// that is when some line separates them: see `disjoint`. The vector is
    /// the overlap along the axis times the axis, which is not of length
    /// one.
    pub fn collision_displacement(&self, other: &Self) -> (r: Option<Vector>)
        ensures
            r is Some <==> collide(self@, other@),
            match r {
                Some(v) => displacement(self@, other@) == Some(v@),
                None => displacement(self@, other@) is None,
            },
    {
        proof {
            use_type_invariant(self);
            use_type_invariant(other);
        }
        let ghost a = self.vertices@;
        let ghost b = other.vertices@;
        let n: usize = self.vertices.len();
        let m: usize = other.vertices.len();
        let total: u128 = n as u128 + m as u128;
        let mut k: u128 = 0;
        let mut best: Option<(i128, i64, i64)> = None;
        let ghost mut least: int = 0;
        while k < total
            invariant
                a == self.vertices@,
                b == other.vertices@,
                n == a.len(),
                m == b.len(),
                n >= 3,
                m >= 3,
                total == n + m,
                k <= total,
                forall|j: int|
                    0 <= j < k ==> !separated_along(a, b, #[trigger] tested_axis(a, b, j)),
                k == 0 ==> best is None,
                k > 0 ==> (best matches Some(t) && {
                    &&& 0 <= least < k
                    &&& t.0 == overlap_along(a, b, tested_axis(a, b, least))
                    &&& (t.1 as int, t.2 as int) == tested_axis(a, b, least)
                    &&& 0 <= t.0 <= 2 * SHADOW_LIMIT
                    &&& -AXIS_LIMIT <= t.1 <= AXIS_LIMIT
                    &&& -AXIS_LIMIT <= t.2 <= AXIS_LIMIT
                    &&& forall|j: int|
                        0 <= j < k ==> t.0 <= overlap_along(a, b, #[trigger] tested_axis(a, b, j))
                    &&& forall|j: int|
                        0 <= j < least ==> t.0 < overlap_along(
                            a,
                            b,
                            #[trigger] tested_axis(a, b, j),
                        )
                }),
            decreases total - k,
        {
            let (start, end) = if k < n as u128 {
                let i: usize = k as usize;
                let next: usize = if i + 1 == n {
                    0
                } else {
                    i + 1
                };
                (self.vertices[i], self.vertices[next])
            } else {
                let i: usize = (k - n as u128) as usize;
                let next: usize = if i + 1 == m {
                    0
                } else {
                    i + 1
                };
                (other.vertices[i], other.vertices[next])
            };
            proof {
                if k < n {
                    lemma_successor(a, k as int);
                } else {
                    lemma_successor(b, k - n);
                }
            }
            let ax: i64 = start.y as i64 - end.y as i64;
            let ay: i64 = end.x as i64 - start.x as i64;
            assert((ax as int, ay as int) == tested_axis(a, b, k as int));
            match overlap_on(&self.vertices, &other.vertices, ax, ay) {
                None => {
                    assert(separated_along(a, b, tested_axis(a, b, k as int)));
                    return None;
                },
                Some(o) => {
                    let better: bool = match best {
                        None => true,
                        Some(t) => o < t.0,
                    };
                    if better {
                        best = Some((o, ax, ay));
                        proof {
                            least = k as int;
                        }
                    }
                },
            }
            k += 1;
        }
        match best {
            Some(t) => {
                proof {
                    assert(is_least_axis(a, b, least));
                    let chosen = choose|c: int| is_least_axis(a, b, c);
                    lemma_least_axis_unique(a, b, least, chosen);
                    lemma_product_bound(t.0 as int, t.1 as int, 2 * SHADOW_LIMIT, 0xffff_ffff);
                    lemma_product_bound(t.0 as int, t.2 as int, 2 * SHADOW_LIMIT, 0xffff_ffff);
                }
                Some(Vector { x: t.0 * (t.1 as i128), y: t.0 * (t.2 as i128) })
            },
            None => None,
        }
    }

    /// Whether no tested axis separates `self` from `other`.
    pub fn collides_with(&self, other: &Self) -> (r: bool)
        ensures
            r == collide(self@, other@),
    {
        self.collision_displacement(other).is_some()
    }
}

} // verus!
