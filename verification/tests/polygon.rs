use rollroll::engine::geometry::{Point, TriangleOrientation, Vector};
use rollroll::engine::primitives::{triangle_corners, IdGenerator, Polygon};

fn p(x: i32, y: i32) -> Point {
    Point { x, y }
}

fn ring(points: &[(i32, i32)], ids: &mut IdGenerator) -> Polygon {
    Polygon::new(points.iter().map(|&(x, y)| p(x, y)).collect(), ids).unwrap()
}

fn moved(points: &[(i32, i32)], by: Vector) -> Vec<(i32, i32)> {
    points.iter().map(|&(x, y)| (x + by.x as i32, y + by.y as i32)).collect()
}

const SQUARE: [(i32, i32); 4] = [(0, 0), (10, 0), (10, 10), (0, 10)];

#[test]
fn identities_count_up_from_one() {
    let mut ids = IdGenerator::new();
    assert_eq!(ids.issue(), Some(1));
    assert_eq!(ids.issue(), Some(2));
    let a = ring(&SQUARE, &mut ids);
    let b = ring(&SQUARE, &mut ids);
    assert_eq!(a.id(), 3);
    assert_eq!(b.id(), 4);
}

#[test]
fn a_ring_needs_three_vertices() {
    let mut ids = IdGenerator::new();
    assert!(Polygon::new(vec![], &mut ids).is_none());
    assert!(Polygon::new(vec![p(0, 0)], &mut ids).is_none());
    assert!(Polygon::new(vec![p(0, 0), p(1, 0)], &mut ids).is_none());
    // A rejected ring uses up no identity.
    let first = Polygon::new(vec![p(0, 0), p(1, 0), p(0, 1)], &mut ids).unwrap();
    assert_eq!(first.id(), 1);
}

#[test]
fn vertices_and_edges_keep_the_winding_order() {
    let mut ids = IdGenerator::new();
    let square = ring(&SQUARE, &mut ids);
    assert_eq!(square.vertices(), &vec![p(0, 0), p(10, 0), p(10, 10), p(0, 10)]);
    assert_eq!(
        square.edges(),
        vec![
            (p(0, 0), p(10, 0)),
            (p(10, 0), p(10, 10)),
            (p(10, 10), p(0, 10)),
            (p(0, 10), p(0, 0)),
        ]
    );
}

#[test]
fn equality_is_by_identity_alone() {
    let mut ids = IdGenerator::new();
    let a = ring(&SQUARE, &mut ids);
    let b = ring(&SQUARE, &mut ids);
    let copy = a.clone();
    assert!(a != b);
    assert!(a == copy);
    assert_eq!(copy.id(), a.id());
    assert_eq!(copy.vertices(), a.vertices());

    // Another generator hands out the same identity for another ring.
    let mut other_ids = IdGenerator::new();
    let c = ring(&[(5, 5), (6, 5), (5, 6)], &mut other_ids);
    assert!(a == c);
}

#[test]
fn a_triangle_is_laid_out_from_its_apex() {
    let mut ids = IdGenerator::new();
    // 1000 * sqrt(3) / 4 = 433.01...
    let up = Polygon::new_triangle(1000, p(0, 0), TriangleOrientation::Up, &mut ids).unwrap();
    assert_eq!(up.vertices(), &vec![p(0, 433), p(-500, -433), p(500, -433)]);
    let down = Polygon::new_triangle(1000, p(0, 0), TriangleOrientation::Down, &mut ids).unwrap();
    assert_eq!(down.vertices(), &vec![p(0, -433), p(500, 433), p(-500, 433)]);
    let tile =
        Polygon::new_triangle(200, p(-1000, 1000), TriangleOrientation::Up, &mut ids).unwrap();
    assert_eq!(tile.vertices(), &vec![p(-1000, 1086), p(-1100, 914), p(-900, 914)]);
    assert_eq!(
        triangle_corners(200, p(-1000, 1000), TriangleOrientation::Up),
        Some(vec![p(-1000, 1086), p(-1100, 914), p(-900, 914)])
    );
}

#[test]
fn a_triangle_off_the_plane_is_rejected() {
    let mut ids = IdGenerator::new();
    assert!(Polygon::new_triangle(-1, p(0, 0), TriangleOrientation::Up, &mut ids).is_none());
    assert!(Polygon::new_triangle(10, p(i32::MAX, 0), TriangleOrientation::Up, &mut ids).is_none());
    let low = Polygon::new_triangle(10, p(0, i32::MIN), TriangleOrientation::Down, &mut ids);
    assert!(low.is_none());
    assert!(triangle_corners(10, p(i32::MIN, 0), TriangleOrientation::Up).is_none());
    // The corner of the plane is fine for a triangle without extent.
    let dot = Polygon::new_triangle(0, p(i32::MAX, i32::MIN), TriangleOrientation::Up, &mut ids);
    assert_eq!(dot.unwrap().id(), 1);
}

#[test]
fn orientations_are_opposite_to_each_other() {
    assert_eq!(TriangleOrientation::Up.opposite(), TriangleOrientation::Down);
    assert_eq!(TriangleOrientation::Down.opposite(), TriangleOrientation::Up);
    assert_eq!(TriangleOrientation::Up.opposite().opposite(), TriangleOrientation::Up);
}

#[test]
fn a_convex_ring_contains_what_is_inside_and_nothing_outside() {
    let mut ids = IdGenerator::new();
    let pentagon = ring(&[(0, -40), (40, -10), (25, 35), (-25, 35), (-40, -10)], &mut ids);
    for inside in [p(0, 0), p(0, -39), p(38, -10), p(-24, 33), p(10, 20)] {
        assert!(pentagon.contains_point(inside), "{:?}", inside);
    }
    for outside in [p(0, -41), p(41, -10), p(26, 36), p(-40, -40), p(1000, 1000), p(0, 36)] {
        assert!(!pentagon.contains_point(outside), "{:?}", outside);
    }
    // The same ring wound the other way.
    let clockwise = ring(&[(-40, -10), (-25, 35), (25, 35), (40, -10), (0, -40)], &mut ids);
    for inside in [p(0, 0), p(0, -39), p(38, -10), p(-24, 33), p(10, 20)] {
        assert!(clockwise.contains_point(inside), "{:?}", inside);
    }
    for outside in [p(0, -41), p(41, -10), p(26, 36), p(-40, -40), p(1000, 1000), p(0, 36)] {
        assert!(!clockwise.contains_point(outside), "{:?}", outside);
    }
}

#[test]
fn containment_on_the_border_is_steady() {
    let mut ids = IdGenerator::new();
    let square = ring(&SQUARE, &mut ids);
    // On the line of an edge a point counts as on the edge's left.
    for border in [p(5, 0), p(10, 5), p(5, 10), p(0, 5), p(0, 0), p(10, 10)] {
        let first = square.contains_point(border);
        assert!(first, "{:?}", border);
        assert_eq!(square.contains_point(border), first);
    }
    // For a ring wound clockwise the left is the outside.
    let clockwise = ring(&[(0, 10), (10, 10), (10, 0), (0, 0)], &mut ids);
    let first = clockwise.contains_point(p(5, 0));
    assert!(!first);
    assert_eq!(clockwise.contains_point(p(5, 0)), first);
}

#[test]
fn rings_apart_do_not_collide() {
    let mut ids = IdGenerator::new();
    let square = ring(&SQUARE, &mut ids);
    let far = ring(&moved(&SQUARE, Vector { x: 11, y: 0 }), &mut ids);
    assert_eq!(square.collision_displacement(&far), None);
    assert!(!square.collides_with(&far));
    assert!(!far.collides_with(&square));

    let here = Polygon::new_triangle(1000, p(0, 0), TriangleOrientation::Up, &mut ids).unwrap();
    let there =
        Polygon::new_triangle(1000, p(10000, 10000), TriangleOrientation::Up, &mut ids).unwrap();
    assert_eq!(here.collision_displacement(&there), None);
    assert!(!here.collides_with(&there));
}

#[test]
fn the_displacement_is_the_least_overlap_along_its_axis() {
    let mut ids = IdGenerator::new();
    let square = ring(&SQUARE, &mut ids);
    let other = ring(&moved(&SQUARE, Vector { x: 7, y: 3 }), &mut ids);
    // Overlap 70 along (0, 10), 30 along (-10, 0): the second is the least.
    assert_eq!(square.collision_displacement(&other), Some(Vector { x: -300, y: 0 }));
    assert_eq!(other.collision_displacement(&square), Some(Vector { x: -300, y: 0 }));
    assert!(square.collides_with(&other));

    let here = Polygon::new_triangle(1000, p(0, 0), TriangleOrientation::Up, &mut ids).unwrap();
    let near =
        Polygon::new_triangle(1000, p(300, 100), TriangleOrientation::Up, &mut ids).unwrap();
    assert_eq!(
        here.collision_displacement(&near),
        Some(Vector { x: -481669200, y: -278100000 })
    );
}

#[test]
fn among_equal_overlaps_the_first_axis_wins() {
    let mut ids = IdGenerator::new();
    let square = ring(&SQUARE, &mut ids);
    let copy = ring(&SQUARE, &mut ids);
    // All four axes overlap by 100: the first edge's normal, (0, 10), is kept.
    assert_eq!(square.collision_displacement(&copy), Some(Vector { x: 0, y: 1000 }));
}

#[test]
fn rings_that_touch_collide_with_no_displacement() {
    let mut ids = IdGenerator::new();
    let square = ring(&SQUARE, &mut ids);
    let beside = ring(&moved(&SQUARE, Vector { x: 10, y: 0 }), &mut ids);
    assert_eq!(square.collision_displacement(&beside), Some(Vector { x: 0, y: 0 }));
    assert!(square.collides_with(&beside));
}

#[test]
fn a_copy_moved_by_the_displacement_is_clear() {
    let mut ids = IdGenerator::new();
    let corners = [(0, 433), (-500, -433), (500, -433)];
    let tile = ring(&corners, &mut ids);
    let copy = ring(&corners, &mut ids);
    let push = tile.collision_displacement(&copy).unwrap();
    // The least width, 866000, along the first edge's normal, (866, -500).
    assert_eq!(push, Vector { x: 749956000, y: -433000000 });
    let cleared = ring(&moved(&corners, push), &mut ids);
    assert_eq!(tile.collision_displacement(&cleared), None);
    assert!(!tile.collides_with(&cleared));

    let square = ring(&SQUARE, &mut ids);
    let twin = ring(&SQUARE, &mut ids);
    let push = square.collision_displacement(&twin).unwrap();
    assert!(push != Vector { x: 0, y: 0 });
    let cleared = ring(&moved(&SQUARE, push), &mut ids);
    assert!(!square.collides_with(&cleared));
}

#[test]
fn along_a_normal_of_length_one_the_copy_still_touches() {
    let mut ids = IdGenerator::new();
    let unit = [(0, 0), (1, 0), (1, 1), (0, 1)];
    let square = ring(&unit, &mut ids);
    let twin = ring(&unit, &mut ids);
    let push = square.collision_displacement(&twin).unwrap();
    assert_eq!(push, Vector { x: 0, y: 1 });
    let beside = ring(&moved(&unit, push), &mut ids);
    assert_eq!(square.collision_displacement(&beside), Some(Vector { x: 0, y: 0 }));
}

#[test]
fn the_widest_coordinates_do_not_overflow() {
    let mut ids = IdGenerator::new();
    let corners = [
        (i32::MIN, i32::MIN),
        (i32::MAX, i32::MIN),
        (i32::MAX, i32::MAX),
        (i32::MIN, i32::MAX),
    ];
    let plane = ring(&corners, &mut ids);
    let twin = ring(&corners, &mut ids);
    assert!(plane.contains_point(p(0, 0)));
    assert!(plane.contains_point(p(i32::MAX, i32::MIN)));
    let width: i128 = (i32::MAX as i128 - i32::MIN as i128) * (i32::MAX as i128 - i32::MIN as i128);
    assert_eq!(
        plane.collision_displacement(&twin),
        Some(Vector { x: 0, y: width * (i32::MAX as i128 - i32::MIN as i128) })
    );
}

#[test]
fn a_slanted_edge_separates_what_no_level_line_does() {
    let mut ids = IdGenerator::new();
    // Two triangles whose bounding boxes overlap, on either side of the
    // line between their slanted edges.
    let lower = ring(&[(0, 0), (10, 0), (0, 10)], &mut ids);
    let upper = ring(&[(11, 11), (2, 11), (11, 2)], &mut ids);
    assert_eq!(lower.collision_displacement(&upper), None);
    assert_eq!(upper.collision_displacement(&lower), None);
    // Moved across that line they collide.
    let across = ring(&[(9, 9), (0, 9), (9, 0)], &mut ids);
    assert_eq!(lower.collision_displacement(&across), Some(Vector { x: 81, y: 81 }));
    assert_eq!(across.collision_displacement(&lower), Some(Vector { x: 81, y: 81 }));

    let hexagon = ring(&[(20, 0), (10, 17), (-10, 17), (-20, 0), (-10, -17), (10, -17)], &mut ids);
    let beside = ring(&[(16, 12), (26, 12), (26, 22), (16, 22)], &mut ids);
    assert!(!hexagon.collides_with(&beside));
    assert!(!beside.collides_with(&hexagon));
    let into = ring(&[(14, 10), (24, 10), (24, 20), (14, 20)], &mut ids);
    assert_eq!(hexagon.collision_displacement(&into), Some(Vector { x: -34, y: -20 }));
}
