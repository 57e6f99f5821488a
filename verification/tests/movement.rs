use rollroll::engine::movement::resolve_move;
use rollroll::engine::geometry::{Point, Vector};
use rollroll::engine::primitives::{IdGenerator, Polygon};

fn ring(points: &[(i32, i32)], ids: &mut IdGenerator) -> Polygon {
    Polygon::new(points.iter().map(|&(x, y)| Point { x, y }).collect(), ids).unwrap()
}

#[test]
fn a_move_into_the_open_is_not_answered() {
    let mut ids = IdGenerator::new();
    let wall = ring(&[(0, 0), (10, 0), (10, 10), (0, 10)], &mut ids);
    let area = ring(&[(50, 50), (52, 50), (52, 52), (50, 52)], &mut ids);
    assert_eq!(resolve_move(&vec![], &area), None);
    assert_eq!(resolve_move(&vec![&wall], &area), None);
}

#[test]
fn a_move_into_a_wall_is_answered_with_its_displacement() {
    let mut ids = IdGenerator::new();
    let wall = ring(&[(0, 0), (10, 0), (10, 10), (0, 10)], &mut ids);
    let area = ring(&[(7, 3), (17, 3), (17, 13), (7, 13)], &mut ids);
    assert_eq!(wall.collision_displacement(&area), Some(Vector { x: -300, y: 0 }));
    assert_eq!(resolve_move(&vec![&wall], &area), Some(Vector { x: -300, y: 0 }));
}

#[test]
fn of_several_walls_the_least_of_each_component_answers() {
    let mut ids = IdGenerator::new();
    let left = ring(&[(0, 0), (10, 0), (10, 10), (0, 10)], &mut ids);
    let below = ring(&[(5, -8), (25, -8), (25, 4), (5, 4)], &mut ids);
    let away = ring(&[(100, 100), (110, 100), (110, 110), (100, 110)], &mut ids);
    let area = ring(&[(7, 3), (17, 3), (17, 13), (7, 13)], &mut ids);
    let first = left.collision_displacement(&area).unwrap();
    let second = below.collision_displacement(&area).unwrap();
    assert_eq!(first, Vector { x: -300, y: 0 });
    assert_eq!(second, Vector { x: 0, y: 100 });
    assert_eq!(away.collision_displacement(&area), None);
    assert_eq!(
        resolve_move(&vec![&left, &away, &below], &area),
        Some(Vector { x: -300, y: 0 })
    );
    assert_eq!(resolve_move(&vec![&below, &away], &area), Some(Vector { x: 0, y: 100 }));
}

#[test]
fn each_component_is_the_least_on_its_own() {
    let mut ids = IdGenerator::new();
    let area = ring(&[(7, 3), (17, 3), (17, 13), (7, 13)], &mut ids);
    let left = ring(&[(0, 0), (10, 0), (10, 10), (0, 10)], &mut ids);
    let above = ring(&[(5, 12), (25, 12), (25, 30), (5, 30)], &mut ids);
    let first = left.collision_displacement(&area).unwrap();
    let second = above.collision_displacement(&area).unwrap();
    let least = resolve_move(&vec![&left, &above], &area).unwrap();
    assert_eq!(least.x, first.x.min(second.x));
    assert_eq!(least.y, first.y.min(second.y));
}
