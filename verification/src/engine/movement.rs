//! Resolving an attempted move against the obstacles that a query found.

use crate::engine::geometry::{displacement, Point, Vector};
use crate::engine::primitives::Polygon;
use vstd::prelude::*;

verus! {

/// The smaller of two numbers.
pub open spec fn lesser(a: int, b: int) -> int {
    if a <= b {
        a
    } else {
        b
    }
}

/// The least of the displacements of those of `obstacles` that collide with
/// `area`, each against the area, taken by component; nothing when none of
/// them collides.
pub open spec fn least_displacement(obstacles: Seq<Seq<Point>>, area: Seq<Point>) -> Option<
    (int, int),
>
    decreases obstacles.len(),
{
    if obstacles.len() == 0 {
        None
    } else {
        let rest = least_displacement(obstacles.drop_last(), area);
        match displacement(obstacles.last(), area) {
            None => rest,
            Some(d) => match rest {
                None => Some(d),
                Some(m) => Some((lesser(m.0, d.0), lesser(m.1, d.1))),
            },
        }
    }
}

/// The rings of the polygons `polygons`, in order.
pub open spec fn rings(polygons: Seq<&Polygon>) -> Seq<Seq<Point>> {
    Seq::new(polygons.len(), |i: int| polygons[i]@)
}

/// The translation that an attempted move into `area` is answered with:
/// see `least_displacement`.
pub fn resolve_move(obstacles: &Vec<&Polygon>, area: &Polygon) -> (r: Option<Vector>)
    ensures
        match r {
            Some(v) => least_displacement(rings(obstacles@), area@) == Some(v@),
            None => least_displacement(rings(obstacles@), area@) is None,
        },
{
    let mut least: Option<Vector> = None;
    let mut i: usize = 0;
    proof {
        assert(rings(obstacles@).take(0) =~= Seq::<Seq<Point>>::empty());
    }
    while i < obstacles.len()
        invariant
            i <= obstacles.len(),
            match least {
                Some(v) => least_displacement(rings(obstacles@).take(i as int), area@) == Some(v@),
                None => least_displacement(rings(obstacles@).take(i as int), area@) is None,
            },
        decreases obstacles.len() - i,
    {
        proof {
            assert(rings(obstacles@).take(i + 1).drop_last() =~= rings(obstacles@).take(i as int));
            assert(rings(obstacles@).take(i + 1).last() == obstacles@[i as int]@);
        }
        match obstacles[i].collision_displacement(area) {
            None => {},
            Some(d) => {
                least = match least {
                    None => Some(d),
                    Some(m) => Some(
                        Vector {
                            x: if m.x <= d.x {
                                m.x
                            } else {
                                d.x
                            },
                            y: if m.y <= d.y {
                                m.y
                            } else {
                                d.y
                            },
                        },
                    ),
                };
            },
        }
        i += 1;
    }
    proof {
        assert(rings(obstacles@).take(obstacles.len() as int) =~= rings(obstacles@));
    }
    least
}

} // verus!
