use rollroll::engine::geometry::{Point, TriangleOrientation};
use rollroll::engine::primitives::{IdGenerator, Polygon};
use rollroll::engine::quadtree::{QuadTree, MAX_TREE_ENTRIES};

/// Plane units per unit of length.
const SCALE: f32 = 1000.;

fn fixed(length: f32) -> i32 {
    (length * SCALE).round() as i32
}

fn point(x: f32, y: f32) -> Point {
    Point { x: fixed(x), y: fixed(y) }
}

fn triangle(size: f32, center: Point, ids: &mut IdGenerator) -> Polygon {
    Polygon::new_triangle(fixed(size), center, TriangleOrientation::Up, ids).unwrap()
}

#[test]
fn test_found_in_area() {
    let mut ids = IdGenerator::new();
    let mut qt = QuadTree::new();
    let centers: Vec<Point> = (0..=MAX_TREE_ENTRIES)
        .map(|c| {
            let center = point(5. * c as f32, 10.);
            let polygon = triangle(1., center, &mut ids);
            qt.insert(polygon);
            center
        })
        .collect();

    for polygon in qt.iter() {
        for vertex in polygon.vertices() {
            let area = triangle(0.5, *vertex, &mut ids);
            let result = qt.find_in_area(&area);
            assert!(
                polygon.collides_with(&area),
                "Collision failed with polygon {:?} and area {:?}",
                polygon,
                area
            );
            assert_eq!(
                result.len(),
                1,
                "Failed with polygon {} and vertex {:?} and area {:?}",
                polygon.id(),
                vertex,
                area
            );
        }
    }

    for center in centers {
        let area = triangle(0.5, center, &mut ids);
        let result = qt.find_in_area(&area);
        assert_eq!(result.len(), 1, "Failed with area {:?}", area);
    }
}

#[test]
fn test_not_found_in_area() {
    let mut ids = IdGenerator::new();
    let mut qt = QuadTree::new();
    let poly = triangle(1., point(0., 0.), &mut ids);

    qt.insert(poly);

    let area = triangle(1., point(10., 10.), &mut ids);
    let result = qt.find_in_area(&area);
    assert_eq!(result.len(), 0);
}

fn ring(points: &[(i32, i32)], ids: &mut IdGenerator) -> Polygon {
    Polygon::new(points.iter().map(|&(x, y)| Point { x, y }).collect(), ids).unwrap()
}

fn square(x: i32, y: i32, side: i32, ids: &mut IdGenerator) -> Polygon {
    ring(&[(x, y), (x + side, y), (x + side, y + side), (x, y + side)], ids)
}

fn found_ids(qt: &QuadTree, area: &Polygon) -> Vec<usize> {
    let mut ids: Vec<usize> = qt.find_in_area(area).iter().map(|p| p.id()).collect();
    ids.sort();
    ids
}

#[test]
fn an_empty_index_finds_nothing() {
    let mut ids = IdGenerator::new();
    let mut qt = QuadTree::new();
    assert_eq!(qt.len(), 0);
    assert!(qt.iter().is_empty());
    let area = square(0, 0, 10, &mut ids);
    assert!(qt.find_in_area(&area).is_empty());
    qt.remove_from_point(Point { x: 0, y: 0 });
    assert_eq!(qt.len(), 0);
}

#[test]
fn a_query_finds_the_polygons_it_overlaps_each_once() {
    let mut ids = IdGenerator::new();
    let mut qt = QuadTree::new();
    // Eight squares in a row, a hundred apart.
    for k in 0..8 {
        qt.insert(square(100 * k, 0, 10, &mut ids));
    }
    assert_eq!(qt.len(), 8);
    // An area over the third, fourth and fifth.
    let area = ring(&[(205, 5), (405, 5), (405, 8), (205, 8)], &mut ids);
    assert_eq!(found_ids(&qt, &area), vec![3, 4, 5]);
    // Over none, over one, over all.
    let none = ring(&[(20, 20), (30, 20), (30, 30), (20, 30)], &mut ids);
    assert_eq!(found_ids(&qt, &none), Vec::<usize>::new());
    let one = square(705, 5, 50, &mut ids);
    assert_eq!(found_ids(&qt, &one), vec![8]);
    let all = ring(&[(-5, -5), (800, -5), (800, 20), (-5, 20)], &mut ids);
    assert_eq!(found_ids(&qt, &all), vec![1, 2, 3, 4, 5, 6, 7, 8]);
}

#[test]
fn a_full_leaf_is_quartered_and_every_polygon_is_still_found_once() {
    let mut ids = IdGenerator::new();
    let mut qt = QuadTree::new();
    let count = 3 * MAX_TREE_ENTRIES + 5;
    for k in 0..count as i32 {
        qt.insert(square(1000 + 40 * (k % 7), 1000 + 40 * (k / 7), 10, &mut ids));
    }
    assert_eq!(qt.len(), count);
    assert_eq!(qt.iter().len(), count);
    for k in 0..count as i32 {
        let probe = square(1000 + 40 * (k % 7) + 2, 1000 + 40 * (k / 7) + 2, 5, &mut ids);
        assert_eq!(found_ids(&qt, &probe), vec![k as usize + 1]);
    }
    // A probe that shares a vertex with a polygon finds it wherever the
    // leaves were cut.
    for k in 0..count as i32 {
        let (x, y) = (1000 + 40 * (k % 7), 1000 + 40 * (k / 7));
        let probe = ring(&[(x, y), (x + 3, y), (x, y + 3)], &mut ids);
        assert_eq!(found_ids(&qt, &probe), vec![k as usize + 1]);
    }
}

#[test]
fn polygons_on_one_spot_fill_a_leaf_that_cannot_be_split() {
    let mut ids = IdGenerator::new();
    let mut qt = QuadTree::new();
    for _ in 0..2 * MAX_TREE_ENTRIES {
        qt.insert(ring(&[(7, 7), (8, 7), (7, 8)], &mut ids));
    }
    assert_eq!(qt.len(), 2 * MAX_TREE_ENTRIES);
    let probe = ring(&[(7, 7), (8, 7), (7, 8)], &mut ids);
    assert_eq!(qt.find_in_area(&probe).len(), 2 * MAX_TREE_ENTRIES);
}

#[test]
fn removing_at_a_point_takes_out_the_polygon_that_contains_it() {
    let mut ids = IdGenerator::new();
    let mut qt = QuadTree::new();
    for k in 0..15 {
        qt.insert(square(100 * k, 0, 10, &mut ids));
    }
    let over_fourth = square(302, 2, 5, &mut ids);
    assert_eq!(found_ids(&qt, &over_fourth), vec![4]);
    qt.remove_from_point(Point { x: 305, y: 5 });
    assert_eq!(qt.len(), 14);
    assert_eq!(found_ids(&qt, &over_fourth), Vec::<usize>::new());
    for k in 0..15 {
        let probe = square(100 * k + 2, 2, 5, &mut ids);
        let expected = if k == 3 { vec![] } else { vec![k as usize + 1] };
        assert_eq!(found_ids(&qt, &probe), expected);
    }
    assert!(qt.iter().iter().all(|p| p.id() != 4));
    // A point in no polygon removes nothing.
    qt.remove_from_point(Point { x: 50, y: 50 });
    assert_eq!(qt.len(), 14);
}

#[test]
fn removing_at_a_shared_point_takes_out_all_that_contain_it() {
    let mut ids = IdGenerator::new();
    let mut qt = QuadTree::new();
    qt.insert(square(0, 0, 10, &mut ids));
    qt.insert(square(5, 5, 10, &mut ids));
    qt.insert(square(100, 100, 10, &mut ids));
    qt.remove_from_point(Point { x: 7, y: 7 });
    assert_eq!(qt.len(), 1);
    assert_eq!(qt.iter()[0].id(), 3);
}

#[test]
fn a_polygon_stored_again_takes_the_place_of_the_first() {
    let mut ids = IdGenerator::new();
    let mut qt = QuadTree::new();
    let first = square(0, 0, 10, &mut ids);
    let copy = first.clone();
    qt.insert(first);
    qt.insert(copy);
    assert_eq!(qt.len(), 1);
    let probe = square(2, 2, 5, &mut ids);
    assert_eq!(found_ids(&qt, &probe), vec![1]);
}

#[test]
fn a_polygon_that_spans_a_leaf_without_a_vertex_in_it_is_missed_there() {
    let mut ids = IdGenerator::new();
    let mut qt = QuadTree::new();
    // A wide polygon around the origin, then enough small ones to have the
    // leaves cut around it.
    let wide = ring(
        &[(-100000, -100000), (100000, -100000), (100000, 100000), (-100000, 100000)],
        &mut ids,
    );
    let wide_id = wide.id();
    qt.insert(wide);
    for k in 0..2 * MAX_TREE_ENTRIES as i32 {
        qt.insert(square(10 + 20 * k, 10, 5, &mut ids));
    }
    // A probe well inside the wide polygon overlaps it, yet no leaf that the
    // probe's vertices lead to lists it.
    let probe = square(12, 12, 2, &mut ids);
    let wide_ref = qt.iter().into_iter().find(|p| p.id() == wide_id).unwrap().clone();
    assert!(wide_ref.collides_with(&probe));
    assert_eq!(found_ids(&qt, &probe), vec![2]);
    // A probe that shares a vertex with it finds it.
    let corner = ring(&[(100000, 100000), (100010, 100000), (100000, 100010)], &mut ids);
    assert_eq!(found_ids(&qt, &corner), vec![wide_id]);
}
