use rollroll::engine::geometry::{Point, TriangleOrientation};
use rollroll::engine::carving::{Carver, ACTIVE_CARVERS};
use rollroll::engine::grid::{Cell, MAX_SPAN};
use rollroll::engine::world::{candidates, WorldBuilder};
use std::collections::HashSet;
use std::time::Duration;

fn p(x: i32, y: i32) -> Point {
    Point { x, y }
}

/// Region 2.0 x 2.0 and tile side 0.2, at a thousand units to one.
fn builder() -> WorldBuilder {
    WorldBuilder::new(200, p(2000, 2000)).unwrap()
}

/// 21 tiles to a row, 12 rows.
const TILES: usize = 252;

fn idle() -> Carver {
    Carver { position: p(0, 0), heading: 0 }
}

fn lay_all(builder: &mut WorldBuilder) {
    while builder.pending().is_some() {
        builder.lay_tile(idle());
    }
}

fn finish(builder: &mut WorldBuilder) -> Vec<Vec<Point>> {
    for _ in 0..1_000_000 {
        if let Some(world) = builder.generate(Duration::ZERO) {
            return world.tiles().iter().map(|t| t.vertices().clone()).collect();
        }
    }
    panic!("the carvers did not finish");
}

#[test]
fn a_builder_wants_a_tile_with_extent_and_a_region_in_range() {
    assert!(WorldBuilder::new(3, p(0, 0)).is_some());
    assert!(WorldBuilder::new(2, p(100, 100)).is_none());
    assert!(WorldBuilder::new(0, p(100, 100)).is_none());
    assert!(WorldBuilder::new(-200, p(2000, 2000)).is_none());
    assert!(WorldBuilder::new(200, p(-1, 2000)).is_none());
    assert!(WorldBuilder::new(200, p(2000, -1)).is_none());
    assert!(WorldBuilder::new(MAX_SPAN, p(MAX_SPAN, MAX_SPAN)).is_some());
    assert!(WorldBuilder::new(MAX_SPAN, p(MAX_SPAN, MAX_SPAN)).unwrap().pending().is_some());
    assert!(WorldBuilder::new(200, p(MAX_SPAN + 1, 2000)).is_none());
    assert!(WorldBuilder::new(200, p(2000, MAX_SPAN + 1)).is_none());
    assert!(i32::MAX > MAX_SPAN && WorldBuilder::new(i32::MAX, p(2000, 2000)).is_none());
}

#[test]
fn a_new_builder_waits_at_the_top_left() {
    let builder = builder();
    assert_eq!(
        builder.pending(),
        Some(Cell {
            center: p(-1000, 1000),
            orientation: TriangleOrientation::Up,
            next_row: TriangleOrientation::Down,
        })
    );
    assert!(builder.tiles().is_empty());
    assert!(builder.seeds().is_empty());
    assert!(builder.carvers().is_empty());
    assert!(!builder.is_carving());
    assert_eq!(builder.start_num_tiles(), 0);
}

#[test]
fn tiles_alternate_along_a_row_and_rows_start_opposite() {
    let mut builder = builder();
    let mut cells = vec![];
    while let Some(cell) = builder.pending() {
        cells.push(cell);
        builder.lay_tile(idle());
    }
    assert_eq!(cells.len(), TILES);
    for (k, cell) in cells.iter().enumerate() {
        let (row, column) = ((k / 21) as i32, (k % 21) as i32);
        // Half a side to the right, a tile's height of 2 * 86 down.
        assert_eq!(cell.center, p(-1000 + 100 * column, 1000 - 172 * row));
        let up = (row + column) % 2 == 0;
        assert_eq!(cell.orientation == TriangleOrientation::Up, up);
        assert_eq!(cell.next_row == TriangleOrientation::Down, row % 2 == 0);
    }
    let tiles = builder.tiles();
    assert_eq!(tiles.len(), TILES);
    assert_eq!(tiles[0].vertices(), &vec![p(-1000, 1086), p(-1100, 914), p(-900, 914)]);
    assert_eq!(tiles[1].vertices(), &vec![p(-900, 914), p(-800, 1086), p(-1000, 1086)]);
    assert_eq!(tiles[21].vertices(), &vec![p(-1000, 742), p(-900, 914), p(-1100, 914)]);
    for (k, tile) in tiles.iter().enumerate() {
        assert_eq!(tile.id(), k + 1);
    }
    // Neighbours in a row share an edge.
    for k in 0..TILES - 1 {
        if k % 21 != 20 {
            let shared = tiles[k]
                .vertices()
                .iter()
                .filter(|v| tiles[k + 1].vertices().contains(v))
                .count();
            assert_eq!(shared, 2, "tiles {} and {}", k, k + 1);
        }
    }
}

#[test]
fn laying_a_tile_records_the_seed_it_is_given() {
    let mut builder = builder();
    let seed = Carver { position: p(7, -7), heading: 5 };
    builder.lay_tile(seed);
    assert_eq!(builder.seeds(), &vec![seed]);
    assert_eq!(builder.tiles().len(), 1);
    assert_eq!(
        builder.pending(),
        Some(Cell {
            center: p(-900, 1000),
            orientation: TriangleOrientation::Down,
            next_row: TriangleOrientation::Down,
        })
    );
}

#[test]
fn a_full_grid_takes_no_more_tiles() {
    let mut builder = builder();
    lay_all(&mut builder);
    assert_eq!(builder.tiles().len(), TILES);
    builder.lay_tile(idle());
    assert_eq!(builder.tiles().len(), TILES);
    assert_eq!(builder.seeds().len(), TILES);
    assert!(!builder.is_carving());
}

#[test]
fn a_region_without_extent_holds_one_tile() {
    let mut builder = WorldBuilder::new(3, p(0, 0)).unwrap();
    lay_all(&mut builder);
    assert_eq!(builder.tiles().len(), 1);
    assert_eq!(builder.tiles()[0].vertices(), &vec![p(0, 1), p(-1, -1), p(1, -1)]);
}

#[test]
fn the_edges_of_a_tile_offer_their_midpoints_headed_outwards() {
    let up = vec![p(-1000, 1086), p(-1100, 914), p(-900, 914)];
    assert_eq!(
        candidates(&up, p(-1000, 1000)),
        vec![
            Carver { position: p(-1050, 1000), heading: 6 },
            Carver { position: p(-1000, 914), heading: 9 },
            Carver { position: p(-950, 1000), heading: 0 },
        ]
    );
    let down = vec![p(-900, 914), p(-800, 1086), p(-1000, 1086)];
    assert_eq!(
        candidates(&down, p(-900, 1000)),
        vec![
            Carver { position: p(-850, 1000), heading: 0 },
            Carver { position: p(-900, 1086), heading: 3 },
            Carver { position: p(-950, 1000), heading: 6 },
        ]
    );
}

#[test]
fn the_first_seeds_are_set_to_work() {
    let mut builder = builder();
    let mut k: u8 = 0;
    while builder.pending().is_some() {
        builder.lay_tile(Carver { position: p(k as i32, 0), heading: k % 12 });
        k = k.wrapping_add(1);
    }
    // Nothing happens while the grid is not full, or twice.
    let mut early = WorldBuilder::new(200, p(2000, 2000)).unwrap();
    early.promote();
    assert!(!early.is_carving());

    builder.promote();
    assert!(builder.is_carving());
    assert_eq!(builder.start_num_tiles(), TILES);
    assert_eq!(builder.carvers().len(), ACTIVE_CARVERS);
    assert_eq!(builder.carvers(), builder.seeds()[..ACTIVE_CARVERS].to_vec());
    let before = builder.carvers();
    builder.promote();
    assert_eq!(builder.carvers(), before);
}

#[test]
fn a_small_grid_sets_all_its_seeds_to_work() {
    let mut builder = WorldBuilder::new(200, p(200, 0)).unwrap();
    lay_all(&mut builder);
    assert_eq!(builder.tiles().len(), 3);
    builder.promote();
    assert_eq!(builder.carvers().len(), 3);
}

#[test]
fn a_carver_removes_its_tile_moves_and_turns() {
    let mut builder = builder();
    // The first seed stands in the first tile and heads east.
    builder.lay_tile(Carver { position: p(-1000, 1000), heading: 0 });
    while builder.pending().is_some() {
        builder.lay_tile(Carver { position: p(5000, 5000), heading: 4 });
    }
    builder.promote();
    let first_id = builder.tiles()[0].id();
    let last_id = builder.tiles()[TILES - 1].id();
    assert!(builder.carve(true).is_none());
    // The last tile has taken the place of the first.
    assert_eq!(builder.tiles().len(), TILES - 1);
    assert_eq!(builder.tiles()[0].id(), last_id);
    assert!(builder.tiles().iter().all(|t| t.id() != first_id));
    // One stride east, then a sixth of a turn to the left.
    let carvers = builder.carvers();
    assert_eq!(carvers.len(), ACTIVE_CARVERS);
    assert_eq!(carvers[ACTIVE_CARVERS - 1], Carver { position: p(-800, 1000), heading: 2 });

    // The next carver stands on no tile: it only moves, and turns right.
    assert!(builder.carve(false).is_none());
    assert_eq!(builder.tiles().len(), TILES - 1);
    let carvers = builder.carvers();
    // A stride at 120 degrees: half a side back, a tile's height up.
    assert_eq!(carvers[ACTIVE_CARVERS - 1], Carver { position: p(4900, 5172), heading: 2 });
}

#[test]
fn strides_follow_the_twelve_headings() {
    let expected = [
        (200, 0),
        (172, 100),
        (100, 172),
        (0, 200),
        (-100, 172),
        (-172, 100),
        (-200, 0),
        (-172, -100),
        (-100, -172),
        (0, -200),
        (100, -172),
        (172, -100),
    ];
    for (heading, (dx, dy)) in expected.iter().enumerate() {
        let mut builder = WorldBuilder::new(200, p(2000, 2000)).unwrap();
        while builder.pending().is_some() {
            builder.lay_tile(Carver { position: p(5000, 5000), heading: heading as u8 });
        }
        builder.promote();
        assert!(builder.carve(true).is_none());
        let moved = builder.carvers()[ACTIVE_CARVERS - 1];
        assert_eq!(moved.position, p(5000 + dx, 5000 + dy), "heading {}", heading);
        assert_eq!(moved.heading, (heading as u8 + 2) % 12);
        assert!(builder.carve(false).is_none());
        let moved = builder.carvers()[ACTIVE_CARVERS - 1];
        assert_eq!(moved.heading, (heading as u8 + 10) % 12);
    }
}

#[test]
fn a_carver_stops_at_the_border_of_the_plane() {
    let mut builder = WorldBuilder::new(200, p(0, 0)).unwrap();
    builder.lay_tile(Carver { position: p(i32::MAX - 50, i32::MIN + 50), heading: 11 });
    builder.promote();
    // Off its tile: more than half of the tiles are left, so it walks on.
    assert!(builder.carve(true).is_none());
    assert_eq!(builder.carvers(), vec![Carver { position: p(i32::MAX, i32::MIN), heading: 1 }]);
}

#[test]
fn carvers_are_dropped_once_half_of_the_tiles_are_gone() {
    // Two tiles, both seeded on the first.
    let mut builder = WorldBuilder::new(200, p(199, 0)).unwrap();
    let mut seeds = 0;
    while builder.pending().is_some() {
        builder.lay_tile(Carver { position: p(-99, 0), heading: 6 });
        seeds += 1;
    }
    assert_eq!(seeds, 2);
    builder.promote();
    assert_eq!(builder.carvers().len(), 2);
    assert!(builder.carve(true).is_none());
    // One of two tiles is left: the carver is dropped.
    assert_eq!(builder.tiles().len(), 1);
    assert_eq!(builder.carvers().len(), 1);
    assert!(builder.carve(true).is_none());
    assert_eq!(builder.carvers().len(), 0);
    // No carver is left: the world is handed out, again and again.
    let world = builder.carve(true).unwrap();
    assert_eq!(world.tiles().len(), builder.tiles().len());
    assert!(builder.carve(false).is_some());
}

#[test]
fn nothing_is_carved_before_the_grid_is_full() {
    let mut builder = builder();
    builder.lay_tile(Carver { position: p(-1000, 1000), heading: 0 });
    assert!(builder.carve(true).is_none());
    assert_eq!(builder.tiles().len(), 1);
    assert!(!builder.is_carving());
}

#[test]
fn without_time_one_unit_of_work_is_done() {
    let mut builder = builder();
    for laid in 1..TILES {
        assert!(builder.generate(Duration::ZERO).is_none());
        assert_eq!(builder.tiles().len(), laid);
        assert!(!builder.is_carving());
    }
    // The last tile ends the grid stage within its unit.
    assert!(builder.generate(Duration::ZERO).is_none());
    assert_eq!(builder.tiles().len(), TILES);
    assert!(builder.is_carving());
    assert_eq!(builder.start_num_tiles(), TILES);
    assert_eq!(builder.carvers().len(), ACTIVE_CARVERS);
    // From then on each unit is one carver's turn.
    assert!(builder.generate(Duration::ZERO).is_none());
    assert!(builder.tiles().len() >= TILES - 1);
}

#[test]
fn with_time_enough_one_call_builds_the_world() {
    let mut builder = builder();
    let world = builder.generate(Duration::from_secs(15)).expect("the carvers did not finish");
    assert!(2 * world.tiles().len() <= TILES);
    assert_eq!(builder.start_num_tiles(), TILES);
    assert!(builder.is_carving());
    assert!(builder.carvers().is_empty());
}

#[test]
fn each_seed_is_one_that_its_tile_offers() {
    let mut builder = builder();
    for k in 0..TILES - 1 {
        let cell = builder.pending().unwrap();
        assert!(builder.generate(Duration::ZERO).is_none());
        let tile = &builder.tiles()[k];
        let offered = candidates(tile.vertices(), cell.center);
        assert!(offered.contains(&builder.seeds()[k]), "tile {}", k);
    }
}

#[test]
fn the_seeds_are_shuffled_before_the_first_are_set_to_work() {
    let mut in_order = 0;
    for _ in 0..3 {
        let mut builder = builder();
        for _ in 1..TILES {
            assert!(builder.generate(Duration::ZERO).is_none());
        }
        let recorded = builder.seeds().clone();
        assert_eq!(recorded.len(), TILES - 1);
        assert!(builder.generate(Duration::ZERO).is_none());
        // The same seeds in whatever order, and the last tile's with them.
        let mut rest = builder.seeds().clone();
        assert_eq!(rest.len(), TILES);
        for seed in &recorded {
            let at = rest.iter().position(|s| s == seed).expect("a seed is gone");
            rest.swap_remove(at);
        }
        let last = &builder.tiles()[TILES - 1];
        let offered = candidates(last.vertices(), p(1000, 1000 - 11 * 172));
        assert!(offered.contains(&rest[0]));
        assert_eq!(builder.carvers(), builder.seeds()[..ACTIVE_CARVERS].to_vec());
        if builder.carvers() == recorded[..ACTIVE_CARVERS].to_vec() {
            in_order += 1;
        }
    }
    // Three shuffles that each leave the first ten seeds in place are as good
    // as impossible.
    assert!(in_order < 3);
}

#[test]
fn the_grid_counts_the_same_tiles_whatever_chance_decides() {
    for _ in 0..5 {
        let mut builder = builder();
        while !builder.is_carving() {
            assert!(builder.generate(Duration::ZERO).is_none());
        }
        assert_eq!(builder.start_num_tiles(), TILES);
        let tiles = finish(&mut builder);
        assert!(2 * tiles.len() <= TILES);
        assert!(tiles.len() + ACTIVE_CARVERS > TILES / 2);
    }
}

#[test]
fn a_finished_world_is_what_the_carvers_left_of_the_grid() {
    let mut grid = builder();
    lay_all(&mut grid);
    let all: HashSet<Vec<Point>> = grid.tiles().iter().map(|t| t.vertices().clone()).collect();
    assert_eq!(all.len(), TILES);

    let mut builder = builder();
    let mut done = None;
    for _ in 0..100_000 {
        done = builder.generate(Duration::from_millis(10));
        if done.is_some() {
            break;
        }
    }
    let world = done.expect("the carvers did not finish");
    let left: Vec<Vec<Point>> = world.tiles().iter().map(|t| t.vertices().clone()).collect();
    // At most half of the tiles are left, and fewer by no more than the
    // carvers that were still to be dropped.
    assert!(2 * left.len() <= TILES);
    assert!(left.len() + ACTIVE_CARVERS > TILES / 2);
    // Each is a tile of the grid, and none is there twice.
    let distinct: HashSet<Vec<Point>> = left.iter().cloned().collect();
    assert_eq!(distinct.len(), left.len());
    assert!(distinct.is_subset(&all));
    let ids: HashSet<usize> = world.tiles().iter().map(|t| t.id()).collect();
    assert_eq!(ids.len(), left.len());
    assert!(ids.iter().all(|id| 1 <= *id && *id <= TILES));
    // The builder keeps handing out the same world.
    let again = builder.generate(Duration::ZERO).unwrap();
    assert_eq!(again.tiles().len(), left.len());
    assert_eq!(builder.tiles().len(), left.len());
    assert!(builder.carvers().is_empty());
}
