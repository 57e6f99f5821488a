//! The world generator: a resumable builder that tiles a rectangle with
//! triangles of alternating orientation, row by row, and then lets carvers
//! walk over the tiling and remove the tiles they stand on until at most
//! half of them are left.

use crate::engine::carving::{
    between, edge_seed, first_enclosing, heading_towards, clamped, lemma_first_enclosing,
    lemma_run_push, seed_candidates, BuilderView, Carver, Draw, ACTIVE_CARVERS,
};
use crate::engine::chance::{pick_one, shuffle, thread_generator, toss};
use crate::engine::clock::{elapsed_since, longer_than, now};
use crate::engine::geometry::{
    encloses, half_side, lemma_successor, Point, TriangleOrientation,
};
use crate::engine::grid::{
    grid_cell, lemma_grid_not_empty, lemma_grid_step, lemma_quotient_of,
    row_step, workable, Cell, MAX_SPAN,
};
use crate::engine::primitives::{shapes, triangle_corners, IdGenerator, Polygon, Shape};
use rand::rngs::ThreadRng;
use std::collections::VecDeque;
use std::time::Duration;
use vstd::prelude::*;

verus! {

/// A generated world: the tiles that the carvers left.
pub struct World {
    tiles: Vec<Polygon>,
}

impl View for World {
    type V = Seq<Shape>;

    closed spec fn view(&self) -> Seq<Shape> {
        shapes(self.tiles@)
    }
}

impl World {
    /// The tiles of the world.
    pub fn tiles(&self) -> (r: &Vec<Polygon>)
        ensures
            shapes(r@) == self@,
    {
        &self.tiles
    }
}

/// What the builder is at: laying the grid, or carving it.
enum BuildStage {
    GeneratingGrid,
    Carving,
}

/// The generator: everything it has done so far, so that work can stop
/// after any unit and go on later.
pub struct WorldBuilder {
    tile_size: i32,
    dimensions: Point,
    generated_tiles: Vec<Polygon>,
    queue: VecDeque<Cell>,
    possible_carvers: Vec<Carver>,
    carvers: VecDeque<Carver>,
    stage: BuildStage,
    start_num_tiles: usize,
    ids: IdGenerator,
}

impl View for WorldBuilder {
    type V = BuilderView;

    closed spec fn view(&self) -> BuilderView {
        BuilderView {
            tile_size: self.tile_size as int,
            width: self.dimensions.x as int,
            height: self.dimensions.y as int,
            carving: self.stage is Carving,
            tiles: shapes(self.generated_tiles@),
            pending: self.queue@,
            seeds: self.possible_carvers@,
            carvers: self.carvers@,
            start: self.start_num_tiles as nat,
        }
    }
}

/// `between`, computed.
fn halfway(a: i32, b: i32) -> (r: i32)
    ensures
        r == between(a as int, b as int),
{
    if a <= b {
        (a as i64 + (b as i64 - a as i64) / 2) as i32
    } else {
        (b as i64 + (a as i64 - b as i64) / 2) as i32
    }
}

/// `heading_towards`, computed.
fn heading_to(from: Point, to: Point) -> (r: u8)
    ensures
        r == heading_towards(from, to),
{
    if to.y == from.y {
        if to.x >= from.x {
            0
        } else {
            6
        }
    } else if to.y > from.y {
        3
    } else {
        9
    }
}

/// `clamped`, computed.
fn clamp(v: i64) -> (r: i32)
    ensures
        r == clamped(v as int),
{
    if v < i32::MIN as i64 {
        i32::MIN
    } else if v > i32::MAX as i64 {
        i32::MAX
    } else {
        v as i32
    }
}

/// The seeds that the ring `tile`, around `center`, offers: see
/// `seed_candidates`.
pub fn candidates(tile: &Vec<Point>, center: Point) -> (r: Vec<Carver>)
    ensures
        r@ == seed_candidates(tile@, center),
{
    let n: usize = tile.len();
    let mut out: Vec<Carver> = Vec::new();
    let mut i: usize = 0;
    while i < n
        invariant
            n == tile@.len(),
            i <= n,
            out@.len() == i,
            forall|j: int| 0 <= j < i ==> #[trigger] out@[j] == edge_seed(tile@, center, j),
        decreases n - i,
    {
        let next: usize = if i + 1 == n {
            0
        } else {
            i + 1
        };
        proof {
            lemma_successor(tile@, i as int);
        }
        let start: Point = tile[i];
        let end: Point = tile[next];
        let at = Point { x: halfway(start.x, end.x), y: halfway(start.y, end.y) };
        out.push(Carver { position: at, heading: heading_to(center, at) });
        i += 1;
    }
    proof {
        assert(out@ =~= seed_candidates(tile@, center));
    }
    out
}

/// The shapes of a list with one polygon more are the shapes of the list
/// with the polygon's shape more.
proof fn lemma_shapes_push(polygons: Seq<Polygon>, polygon: Polygon)
    ensures
        shapes(polygons.push(polygon)) == shapes(polygons).push(polygon.shape()),
{
    assert(shapes(polygons.push(polygon)) =~= shapes(polygons).push(polygon.shape()));
}

impl WorldBuilder {
    /// While the grid grows, the next identity is the next tile's rank.
    pub closed spec fn numbered(&self) -> bool {
        !(self.stage is Carving) ==> self.ids.upcoming() == self.generated_tiles@.len() + 1
    }

    /// The invariant of the builder.
    pub open spec fn wf(&self) -> bool {
        self@.wf() && self.numbered()
    }

    /// A builder for tiles of side `tile_size` over the region of the given
    /// width and height around the origin, with the top left cell waiting.
    /// There is none where `workable` fails.
    pub fn new(tile_size: i32, dimensions: Point) -> (r: Option<Self>)
        ensures
            r is Some <==> workable(tile_size as int, dimensions.x as int, dimensions.y as int),
            r matches Some(b) ==> b.wf() && b@ == BuilderView::initial(
                tile_size as int,
                dimensions.x as int,
                dimensions.y as int,
            ),
    {
        if tile_size < 3 || tile_size > MAX_SPAN || dimensions.x < 0 || dimensions.x > MAX_SPAN
            || dimensions.y < 0 || dimensions.y > MAX_SPAN {
            return None;
        }
        proof {
            lemma_grid_not_empty(tile_size as int, dimensions.x as int, dimensions.y as int);
        }
        let half: i64 = (tile_size / 2) as i64;
        let step: i64 = 2 * ((tile_size as i64) * 4_330_127 / 10_000_000);
        let columns: i64 = 2 * ((dimensions.x / 2) as i64) / half + 1;
        let rows: i64 = 2 * ((dimensions.y / 2) as i64) / step + 1;
        proof {
            assert(rows * columns <= 0x4000_0001 * 0x4000_0001) by (nonlinear_arith)
                requires
                    1 <= rows <= 0x4000_0001,
                    1 <= columns <= 0x4000_0001,
            ;
        }
        let count: i128 = (rows as i128) * (columns as i128);
        if count >= usize::MAX as i128 {
            return None;
        }
        let first = Cell {
            center: Point { x: -(dimensions.x / 2), y: dimensions.y / 2 },
            orientation: TriangleOrientation::Up,
            next_row: TriangleOrientation::Down,
        };
        proof {
            lemma_quotient_of(columns as int, 0, 0);
            assert(columns * 0 == 0);
            assert(0 * half_side(tile_size as int) == 0);
            assert(0 * row_step(tile_size as int) == 0);
            assert(first == grid_cell(
                tile_size as int,
                dimensions.x as int,
                dimensions.y as int,
                0,
            ));
        }
        let mut queue: VecDeque<Cell> = VecDeque::new();
        queue.push_back(first);
        let builder = WorldBuilder {
            tile_size,
            dimensions,
            generated_tiles: Vec::new(),
            queue,
            possible_carvers: Vec::new(),
            carvers: VecDeque::new(),
            stage: BuildStage::GeneratingGrid,
            start_num_tiles: 0,
            ids: IdGenerator::new(),
        };
        proof {
            assert(builder@.tiles =~= Seq::<Shape>::empty());
            assert(builder@.pending =~= seq![first]);
            assert(builder@ == BuilderView::initial(
                tile_size as int,
                dimensions.x as int,
                dimensions.y as int,
            ));
        }
        Some(builder)
    }

    /// Gives the waiting cell its tile and the tile the seed `seed`, and
    /// lets the next cell wait: see `laid`.
    pub fn lay_tile(&mut self, seed: Carver)
        requires
            old(self).wf(),
        ensures
            final(self).wf(),
            final(self)@ == old(self)@.laid(seed),
    {
        if let BuildStage::Carving = self.stage {
            return ;
        }
        let ghost pre = self@;
        let ghost k = self.generated_tiles@.len() as int;
        match self.queue.pop_front() {
            None => {
                assert(self.queue@ =~= pre.pending);
            },
            Some(cell) => {
                proof {
                    lemma_grid_step(pre.tile_size, pre.width, pre.height, k);
                }
                match Polygon::new_triangle(
                    self.tile_size,
                    cell.center,
                    cell.orientation,
                    &mut self.ids,
                ) {
                    None => {
                        // A tile of the grid lies on the plane, and the
                        // grid has fewer tiles than there are identities.
                        assert(false);
                    },
                    Some(tile) => {
                        proof {
                            lemma_shapes_push(self.generated_tiles@, tile);
                            assert(tile.shape() == pre.tile(k));
                        }
                        self.possible_carvers.push(seed);
                        self.generated_tiles.push(tile);
                        let half: i64 = (self.tile_size / 2) as i64;
                        let step: i64 = 2 * ((self.tile_size as i64) * 4_330_127 / 10_000_000);
                        let next_x: i64 = cell.center.x as i64 + half;
                        if next_x > (self.dimensions.x / 2) as i64 {
                            let next_y: i64 = cell.center.y as i64 - step;
                            if next_y >= -((self.dimensions.y / 2) as i64) {
                                self.queue.push_back(
                                    Cell {
                                        center: Point {
                                            x: -(self.dimensions.x / 2),
                                            y: next_y as i32,
                                        },
                                        orientation: cell.next_row,
                                        next_row: cell.next_row.opposite(),
                                    },
                                );
                            }
                        } else {
                            self.queue.push_back(
                                Cell {
                                    center: Point { x: next_x as i32, y: cell.center.y },
                                    orientation: cell.orientation.opposite(),
                                    next_row: cell.next_row,
                                },
                            );
                        }
                        proof {
                            assert(self.queue@ =~= pre.laid(seed).pending);
                            assert(self@ == pre.laid(seed));
                        }
                    },
                }
            },
        }
    }

    /// One unit of the grid stage: the waiting cell gets its tile, and the
    /// tile's seed is picked at random among those that its edges offer.
    fn process_queue(&mut self, rng: &mut ThreadRng) -> (seed: Ghost<Carver>)
        requires
            old(self).wf(),
        ensures
            final(self).wf(),
            final(self)@ == old(self)@.laid(seed@),
            !old(self)@.carving && old(self)@.pending.len() > 0 ==> seed_candidates(
                old(self)@.tile(old(self)@.tiles.len() as int).vertices,
                old(self)@.pending[0].center,
            ).contains(seed@),
    {
        let ghost idle = Carver { position: Point { x: 0, y: 0 }, heading: 0 };
        if let BuildStage::Carving = self.stage {
            return Ghost(idle);
        }
        if self.queue.len() == 0 {
            return Ghost(idle);
        }
        let cell: Cell = self.queue[0];
        proof {
            lemma_grid_step(
                self@.tile_size,
                self@.width,
                self@.height,
                self.generated_tiles@.len() as int,
            );
        }
        match triangle_corners(self.tile_size, cell.center, cell.orientation) {
            None => {
                // A tile of the grid lies on the plane.
                assert(false);
                Ghost(idle)
            },
            Some(corners) => {
                let offered = candidates(&corners, cell.center);
                match pick_one(&offered, rng) {
                    None => {
                        // A tile has three edges to offer seeds.
                        assert(false);
                        Ghost(idle)
                    },
                    Some(seed) => {
                        self.lay_tile(seed);
                        Ghost(seed)
                    },
                }
            },
        }
    }

    /// The index of the first tile that contains `point`.
    fn find_polygon(&self, point: Point) -> (r: Option<usize>)
        ensures
            match r {
                Some(i) => first_enclosing(self@.tiles, point) == Some(i as int),
                None => first_enclosing(self@.tiles, point) is None,
            },
    {
        let mut i: usize = 0;
        while i < self.generated_tiles.len()
            invariant
                i <= self.generated_tiles@.len(),
                self@.tiles == shapes(self.generated_tiles@),
                forall|j: int|
                    0 <= j < i ==> !encloses((#[trigger] self@.tiles[j]).vertices, point),
            decreases self.generated_tiles.len() - i,
        {
            if self.generated_tiles[i].contains_point(point) {
                proof {
                    let tiles = self@.tiles;
                    lemma_first_enclosing(tiles, point);
                    assert(encloses(tiles[i as int].vertices, point));
                    match first_enclosing(tiles, point) {
                        Some(f) => {
                            if f < i {
                                assert(!encloses(tiles[f].vertices, point));
                            }
                        },
                        None => {},
                    }
                }
                return Some(i);
            }
            i += 1;
        }
        proof {
            lemma_first_enclosing(self@.tiles, point);
        }
        None
    }

    /// Counts the tiles and sets the first seeds to work: see `promoted`.
    pub fn promote(&mut self)
        requires
            old(self).wf(),
        ensures
            final(self).wf(),
            final(self)@ == old(self)@.promoted(),
    {
        if let BuildStage::Carving = self.stage {
            return ;
        }
        if self.queue.len() > 0 {
            return ;
        }
        let ghost pre = self@;
        self.start_num_tiles = self.generated_tiles.len();
        let wanted: usize = if self.possible_carvers.len() < ACTIVE_CARVERS {
            self.possible_carvers.len()
        } else {
            ACTIVE_CARVERS
        };
        let mut i: usize = 0;
        while i < wanted
            invariant
                i <= wanted <= self.possible_carvers@.len(),
                self.carvers@ == self.possible_carvers@.take(i as int),
                self.possible_carvers@ == pre.seeds,
                self.generated_tiles@ == old(self).generated_tiles@,
                self.queue@ == pre.pending,
                self.tile_size == old(self).tile_size,
                self.dimensions == old(self).dimensions,
                self.start_num_tiles == pre.tiles.len(),
                self.stage is GeneratingGrid,
            decreases wanted - i,
        {
            self.carvers.push_back(self.possible_carvers[i]);
            proof {
                assert(self.possible_carvers@.take(i + 1) =~= self.possible_carvers@.take(
                    i as int,
                ).push(self.possible_carvers@[i as int]));
            }
            i += 1;
        }
        self.stage = BuildStage::Carving;
        proof {
            lemma_grid_not_empty(pre.tile_size, pre.width, pre.height);
            assert(self@ == pre.promoted());
        }
    }

    /// The end of the grid stage: the seeds are shuffled, and the first of
    /// them are set to work.
    fn begin_carving(&mut self, rng: &mut ThreadRng) -> (order: Ghost<Seq<Carver>>)
        requires
            old(self).wf(),
        ensures
            final(self).wf(),
            order@.to_multiset() == old(self)@.seeds.to_multiset(),
            final(self)@ == old(self)@.reseeded(order@).promoted(),
    {
        let ghost pre = self@;
        if let BuildStage::Carving = self.stage {
            assert(self@ == pre.reseeded(pre.seeds).promoted());
            return Ghost(pre.seeds);
        }
        if self.queue.len() > 0 {
            assert(self@ == pre.reseeded(pre.seeds).promoted());
            return Ghost(pre.seeds);
        }
        shuffle(&mut self.possible_carvers, rng);
        let ghost order = self.possible_carvers@;
        proof {
            pre.seeds.to_multiset_ensures();
            order.to_multiset_ensures();
            assert(self@ == pre.reseeded(order));
        }
        self.promote();
        Ghost(order)
    }

    /// One unit of the carving stage with the coin toss `left`: see
    /// `carved`. The world is handed out when no carver is left.
    pub fn carve(&mut self, left: bool) -> (r: Option<World>)
        requires
            old(self).wf(),
        ensures
            final(self).wf(),
            final(self)@ == old(self)@.carved(left),
            r is Some <==> old(self)@.finished(),
            r matches Some(world) ==> world@ == old(self)@.tiles,
    {
        if let BuildStage::GeneratingGrid = self.stage {
            return None;
        }
        let ghost pre = self@;
        match self.carvers.pop_front() {
            None => {
                assert(self.carvers@ =~= pre.carvers);
                let tiles = self.generated_tiles.clone();
                proof {
                    assert(shapes(tiles@) =~= shapes(self.generated_tiles@));
                }
                Some(World { tiles })
            },
            Some(carver) => {
                proof {
                    lemma_first_enclosing(pre.tiles, carver.position);
                }
                match self.find_polygon(carver.position) {
                    Some(idx) => {
                        let ghost before = self.generated_tiles@;
                        self.generated_tiles.swap_remove(idx);
                        proof {
                            assert(shapes(self.generated_tiles@) =~= shapes(before).update(
                                idx as int,
                                shapes(before).last(),
                            ).drop_last());
                        }
                    },
                    None => {},
                }
                if 2 * (self.generated_tiles.len() as u128) > self.start_num_tiles as u128 {
                    let half: i64 = (self.tile_size / 2) as i64;
                    let rise: i64 = 2 * ((self.tile_size as i64) * 4_330_127 / 10_000_000);
                    let size: i64 = self.tile_size as i64;
                    let h: u8 = carver.heading % 12;
                    let (dx, dy): (i64, i64) = if h == 0 {
                        (size, 0)
                    } else if h == 1 {
                        (rise, half)
                    } else if h == 2 {
                        (half, rise)
                    } else if h == 3 {
                        (0, size)
                    } else if h == 4 {
                        (-half, rise)
                    } else if h == 5 {
                        (-rise, half)
                    } else if h == 6 {
                        (-size, 0)
                    } else if h == 7 {
                        (-rise, -half)
                    } else if h == 8 {
                        (-half, -rise)
                    } else if h == 9 {
                        (0, -size)
                    } else if h == 10 {
                        (half, -rise)
                    } else {
                        (rise, -half)
                    };
                    let heading: u8 = if left {
                        (h + 2) % 12
                    } else {
                        (h + 10) % 12
                    };
                    self.carvers.push_back(
                        Carver {
                            position: Point {
                                x: clamp(carver.position.x as i64 + dx),
                                y: clamp(carver.position.y as i64 + dy),
                            },
                            heading,
                        },
                    );
                }
                proof {
                    assert(self@.carvers =~= pre.carved(left).carvers);
                    assert(self@ == pre.carved(left));
                }
                None
            },
        }
    }

    /// The tiles that are there now: those laid so far, less those carved
    /// away.
    pub fn tiles(&self) -> (r: &Vec<Polygon>)
        ensures
            shapes(r@) == self@.tiles,
    {
        &self.generated_tiles
    }

    /// The seeds recorded so far.
    pub fn seeds(&self) -> (r: &Vec<Carver>)
        ensures
            r@ == self@.seeds,
    {
        &self.possible_carvers
    }

    /// The carvers at work, the next to take its turn first.
    pub fn carvers(&self) -> (r: Vec<Carver>)
        ensures
            r@ == self@.carvers,
    {
        let mut out: Vec<Carver> = Vec::new();
        let mut i: usize = 0;
        while i < self.carvers.len()
            invariant
                i <= self.carvers@.len(),
                out@ == self.carvers@.take(i as int),
            decreases self.carvers.len() - i,
        {
            out.push(self.carvers[i]);
            proof {
                assert(self.carvers@.take(i + 1) =~= self.carvers@.take(i as int).push(
                    self.carvers@[i as int],
                ));
            }
            i += 1;
        }
        proof {
            assert(self.carvers@.take(self.carvers@.len() as int) =~= self.carvers@);
        }
        out
    }

    /// The cell that waits for its tile, if one does.
    pub fn pending(&self) -> (r: Option<Cell>)
        ensures
            match r {
                Some(cell) => self@.pending.len() > 0 && cell == self@.pending[0],
                None => self@.pending.len() == 0,
            },
    {
        if self.queue.len() > 0 {
            Some(self.queue[0])
        } else {
            None
        }
    }

    /// Whether the grid stage is over.
    pub fn is_carving(&self) -> (r: bool)
        ensures
            r == self@.carving,
    {
        match self.stage {
            BuildStage::Carving => true,
            BuildStage::GeneratingGrid => false,
        }
    }

    /// The number of tiles counted at the end of the grid stage; zero before.
    pub fn start_num_tiles(&self) -> (r: usize)
        ensures
            r == self@.start,
    {
        self.start_num_tiles
    }

    /// One unit of work, with what it needs of chance.
    fn step(&mut self, rng: &mut ThreadRng) -> (r: (Option<World>, Ghost<Draw>))
        requires
            old(self).wf(),
        ensures
            final(self).wf(),
            old(self)@.allows(r.1@),
            final(self)@ == old(self)@.advanced(r.1@),
            r.0 is Some <==> old(self)@.finished(),
            r.0 matches Some(world) ==> world@ == old(self)@.tiles,
    {
        let ghost pre = self@;
        match self.stage {
            BuildStage::GeneratingGrid => {
                let seed = self.process_queue(rng);
                let ghost laid = self@;
                let mut order: Ghost<Seq<Carver>> = Ghost(laid.seeds);
                if self.queue.len() == 0 {
                    order = self.begin_carving(rng);
                }
                (None, Ghost(Draw { seed: seed@, order: order@, left: false }))
            },
            BuildStage::Carving => {
                let left: bool = toss(rng);
                let done = self.carve(left);
                // A carver's turn takes the coin toss alone.
                let ghost idle = Carver { position: Point { x: 0, y: 0 }, heading: 0 };
                (done, Ghost(Draw { seed: idle, order: pre.seeds, left }))
            },
        }
    }

    /// Works until the world is done, which hands it out, or until a unit
    /// of work ends later than `allowed_time` after the call, which hands
    /// out nothing: the next call goes on from there. At least one unit of
    /// work is done, and at most `u64::MAX` and one.
    pub fn generate(&mut self, allowed_time: Duration) -> (r: Option<World>)
        requires
            old(self).wf(),
        ensures
            final(self).wf(),
            exists|draws: Seq<Draw>|
                #![trigger old(self)@.run(draws)]
                {
                    &&& draws.len() >= 1
                    &&& old(self)@.permits(draws)
                    &&& final(self)@ == old(self)@.run(draws)
                    &&& r is Some <==> old(self)@.run(draws.drop_last()).finished()
                },
            r matches Some(world) ==> {
                &&& world@ == final(self)@.tiles
                &&& final(self)@.finished()
                &&& 2 * world@.len() <= final(self)@.count()
            },
    {
        let start = now();
        let mut rng = thread_generator();
        let ghost mut draws: Seq<Draw> = Seq::empty();
        let mut budget: u64 = u64::MAX;
        loop
            invariant
                self.wf(),
                old(self)@.permits(draws),
                self@ == old(self)@.run(draws),
            decreases budget,
        {
            let ghost before = draws;
            let (done, draw) = self.step(&mut rng);
            proof {
                draws = before.push(draw@);
                lemma_run_push(old(self)@, before, draw@);
            }
            if let Some(world) = done {
                return Some(world);
            }
            let elapsed = elapsed_since(&start);
            if longer_than(&elapsed, &allowed_time) {
                return None;
            }
            if budget == 0 {
                return None;
            }
            budget = budget - 1;
        }
    }
}

} // verus!
