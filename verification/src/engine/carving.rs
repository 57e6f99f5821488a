//! What a builder holds and how a unit of work changes it: a tile laid in
//! the grid stage, the seeds set to work when the grid is full, a carver's
//! turn in the carving stage. Chance enters as a `Draw`; everything else is
//! determined.

use crate::engine::geometry::{encloses, half_side, successor, Point};
use crate::engine::convexity::winds;
use crate::engine::grid::{
    grid_cell, grid_count, grid_tile, lemma_grid_not_empty, lemma_grid_tile_convex, row_step,
    workable, Cell,
};
use crate::engine::primitives::Shape;
use vstd::prelude::*;

verus! {

/// A carver: where it stands and where it is headed, in twelfths of a turn
/// counter-clockwise from east.
#[derive(Clone, Copy, Debug, PartialEq, Eq, Structural)]
pub struct Carver {
    pub position: Point,
    pub heading: u8,
}

/// The number of carvers that are set to work.
pub const ACTIVE_CARVERS: usize = 10;

/// The number halfway between `a` and `b`, rounded towards the smaller.
pub open spec fn between(a: int, b: int) -> int {
    if a <= b {
        a + (b - a) / 2
    } else {
        b + (a - b) / 2
    }
}

/// The point halfway between `a` and `b`.
pub open spec fn edge_midpoint(a: Point, b: Point) -> Point {
    Point { x: between(a.x as int, b.x as int) as i32, y: between(a.y as int, b.y as int) as i32 }
}

/// The heading from `from` to a point `to` on its level or straight above
/// or below it, as the midpoints of a tile's edges are from its centre:
/// east or west for a point on the same level, else north or south.
pub open spec fn heading_towards(from: Point, to: Point) -> u8 {
    if to.y == from.y {
        if to.x >= from.x {
            0
        } else {
            6
        }
    } else if to.y > from.y {
        3
    } else {
        9
    }
}

/// The seed that edge `i` of the tile `tile` around `center` offers: the
/// edge's midpoint, headed away from the centre.
pub open spec fn edge_seed(tile: Seq<Point>, center: Point, i: int) -> Carver {
    let at = edge_midpoint(tile[i], successor(tile, i));
    Carver { position: at, heading: heading_towards(center, at) }
}

/// The seeds that the tile `tile` around `center` offers, one for each edge.
pub open spec fn seed_candidates(tile: Seq<Point>, center: Point) -> Seq<Carver> {
    Seq::new(tile.len(), |i: int| edge_seed(tile, center, i))
}

/// One step of length `tile_size` in the direction `heading`, the height of
/// a tile standing for the side times `sqrt(3) / 2`.
pub open spec fn stride(heading: u8, tile_size: int) -> (int, int) {
    let a = half_side(tile_size);
    let r = row_step(tile_size);
    let h = heading % 12;
    if h == 0 {
        (tile_size, 0)
    } else if h == 1 {
        (r, a)
    } else if h == 2 {
        (a, r)
    } else if h == 3 {
        (0, tile_size)
    } else if h == 4 {
        (-a, r)
    } else if h == 5 {
        (-r, a)
    } else if h == 6 {
        (-tile_size, 0)
    } else if h == 7 {
        (-r, -a)
    } else if h == 8 {
        (-a, -r)
    } else if h == 9 {
        (0, -tile_size)
    } else if h == 10 {
        (a, -r)
    } else {
        (r, -a)
    }
}

/// `v`, or the nearest coordinate of the plane.
pub open spec fn clamped(v: int) -> i32 {
    if v < i32::MIN {
        i32::MIN
    } else if v > i32::MAX {
        i32::MAX
    } else {
        v as i32
    }
}

/// The heading a sixth of a turn to the left or to the right of `heading`.
pub open spec fn turned(heading: u8, left: bool) -> u8 {
    if left {
        ((heading % 12 + 2) % 12) as u8
    } else {
        ((heading % 12 + 10) % 12) as u8
    }
}

/// The carver after one move: a stride ahead, stopped at the border of the
/// plane, and turned.
pub open spec fn moved(carver: Carver, tile_size: int, left: bool) -> Carver {
    Carver {
        position: Point {
            x: clamped(carver.position.x + stride(carver.heading, tile_size).0),
            y: clamped(carver.position.y + stride(carver.heading, tile_size).1),
        },
        heading: turned(carver.heading, left),
    }
}

/// The index of the first of `tiles` that contains `point`.
pub open spec fn first_enclosing(tiles: Seq<Shape>, point: Point) -> Option<int>
    decreases tiles.len(),
{
    if tiles.len() == 0 {
        None
    } else if encloses(tiles[0].vertices, point) {
        Some(0)
    } else {
        match first_enclosing(tiles.subrange(1, tiles.len() as int), point) {
            Some(i) => Some(i + 1),
            None => None,
        }
    }
}

/// `first_enclosing` finds a tile that contains the point and that no such
/// tile precedes, or nothing when no tile contains the point.
pub proof fn lemma_first_enclosing(tiles: Seq<Shape>, point: Point)
    ensures
        match first_enclosing(tiles, point) {
            Some(i) => 0 <= i < tiles.len() && encloses(tiles[i].vertices, point) && forall|j: int|
                0 <= j < i ==> !encloses((#[trigger] tiles[j]).vertices, point),
            None => forall|j: int|
                0 <= j < tiles.len() ==> !encloses((#[trigger] tiles[j]).vertices, point),
        },
    decreases tiles.len(),
{
    if tiles.len() > 0 && !encloses(tiles[0].vertices, point) {
        let rest = tiles.subrange(1, tiles.len() as int);
        lemma_first_enclosing(rest, point);
        match first_enclosing(rest, point) {
            Some(i) => {
                assert(rest[i] == tiles[i + 1]);
                assert forall|j: int| 0 <= j < i + 1 implies !encloses(
                    (#[trigger] tiles[j]).vertices,
                    point,
                ) by {
                    if j > 0 {
                        assert(rest[j - 1] == tiles[j]);
                    }
                }
            },
            None => {
                assert forall|j: int| 0 <= j < tiles.len() implies !encloses(
                    (#[trigger] tiles[j]).vertices,
                    point,
                ) by {
                    if j > 0 {
                        assert(rest[j - 1] == tiles[j]);
                    }
                }
            },
        }
    }
}

/// What a builder holds.
pub struct BuilderView {
    pub tile_size: int,
    pub width: int,
    pub height: int,
    pub carving: bool,
    pub tiles: Seq<Shape>,
    pub pending: Seq<Cell>,
    pub seeds: Seq<Carver>,
    pub carvers: Seq<Carver>,
    pub start: nat,
}

impl BuilderView {
    /// The number of tiles of the builder's grid.
    pub open spec fn count(self) -> int {
        grid_count(self.tile_size, self.width, self.height)
    }

    /// The `k`-th tile of the builder's grid.
    pub open spec fn tile(self, k: int) -> Shape {
        grid_tile(self.tile_size, self.width, self.height, k)
    }

    /// The `k`-th cell of the builder's grid.
    pub open spec fn cell(self, k: int) -> Cell {
        grid_cell(self.tile_size, self.width, self.height, k)
    }

    /// While the grid grows: the tiles are the first of the grid in order,
    /// each with its seed, and the next cell waits unless the grid is full.
    pub open spec fn growing(self) -> bool {
        &&& self.tiles.len() <= self.count()
        &&& self.seeds.len() == self.tiles.len()
        &&& forall|k: int| 0 <= k < self.tiles.len() ==> #[trigger] self.tiles[k] == self.tile(k)
        &&& self.pending == if self.tiles.len() < self.count() {
            seq![self.cell(self.tiles.len() as int)]
        } else {
            Seq::<Cell>::empty()
        }
        &&& self.carvers.len() == 0
        &&& self.start == 0
    }

    /// While the carvers work: the tiles are tiles of the grid, none twice,
    /// and as long as more than half of them are left a carver is at work.
    pub open spec fn eroding(self) -> bool {
        &&& self.start == self.count()
        &&& self.pending.len() == 0
        &&& self.tiles.len() <= self.start
        &&& forall|i: int|
            0 <= i < self.tiles.len() ==> 1 <= (#[trigger] self.tiles[i]).id <= self.count()
                && self.tiles[i] == self.tile(self.tiles[i].id - 1)
        &&& forall|i: int, j: int|
            0 <= i < j < self.tiles.len() ==> (#[trigger] self.tiles[i]).id != (
            #[trigger] self.tiles[j]).id
        &&& (self.carvers.len() > 0 || 2 * self.tiles.len() <= self.start)
    }

    /// The invariant of a builder.
    pub open spec fn wf(self) -> bool {
        &&& workable(self.tile_size, self.width, self.height)
        &&& if self.carving {
            self.eroding()
        } else {
            self.growing()
        }
    }

    /// Whether generation is over: the carvers are gone.
    pub open spec fn finished(self) -> bool {
        self.carving && self.carvers.len() == 0
    }

    /// A builder that has done nothing yet: the top left cell waits.
    pub open spec fn initial(tile_size: int, width: int, height: int) -> BuilderView {
        BuilderView {
            tile_size,
            width,
            height,
            carving: false,
            tiles: Seq::empty(),
            pending: seq![grid_cell(tile_size, width, height, 0)],
            seeds: Seq::empty(),
            carvers: Seq::empty(),
            start: 0,
        }
    }

    /// The builder after the waiting cell got its tile and the tile the seed
    /// `seed`. Nothing changes where no cell waits.
    pub open spec fn laid(self, seed: Carver) -> BuilderView {
        if self.carving || self.pending.len() == 0 {
            self
        } else {
            BuilderView {
                tiles: self.tiles.push(self.tile(self.tiles.len() as int)),
                seeds: self.seeds.push(seed),
                pending: if self.tiles.len() + 1 < self.count() {
                    seq![self.cell(self.tiles.len() as int + 1)]
                } else {
                    Seq::<Cell>::empty()
                },
                ..self
            }
        }
    }

    /// The builder with its seeds in the order `order`.
    pub open spec fn reseeded(self, order: Seq<Carver>) -> BuilderView {
        BuilderView { seeds: order, ..self }
    }

    /// The builder after the tiles were counted and the first seeds, at
    /// most `ACTIVE_CARVERS` of them, were set to work. Nothing changes
    /// while a cell waits or once the carvers work.
    pub open spec fn promoted(self) -> BuilderView {
        if self.carving || self.pending.len() > 0 {
            self
        } else {
            BuilderView {
                carving: true,
                start: self.tiles.len(),
                carvers: self.seeds.take(
                    if self.seeds.len() < ACTIVE_CARVERS {
                        self.seeds.len() as int
                    } else {
                        ACTIVE_CARVERS as int
                    },
                ),
                ..self
            }
        }
    }

    /// The builder after the carver at the front took its turn: the first
    /// tile that contains its position is removed, the last tile taking its
    /// place; and if more than half of the tiles are left then, the carver
    /// moves, turns left or right, and queues up at the back. Nothing
    /// changes where no carver waits.
    pub open spec fn carved(self, left: bool) -> BuilderView {
        if !self.carving || self.carvers.len() == 0 {
            self
        } else {
            let carver = self.carvers[0];
            let rest = self.carvers.subrange(1, self.carvers.len() as int);
            let tiles = match first_enclosing(self.tiles, carver.position) {
                Some(i) => self.tiles.update(i, self.tiles.last()).drop_last(),
                None => self.tiles,
            };
            BuilderView {
                tiles,
                carvers: if 2 * tiles.len() > self.start {
                    rest.push(moved(carver, self.tile_size, left))
                } else {
                    rest
                },
                ..self
            }
        }
    }
}

/// What chance decides in one unit of work: the seed of the tile that is
/// laid, the order into which the seeds are shuffled when the grid is full,
/// and the side to which the carver turns.
pub struct Draw {
    pub seed: Carver,
    pub order: Seq<Carver>,
    pub left: bool,
}

impl BuilderView {
    /// The builder after one unit of work. In the grid stage the waiting
    /// cell gets its tile, and once no cell waits the seeds are shuffled
    /// and the first of them set to work. In the carving stage the carver
    /// at the front takes its turn.
    pub open spec fn advanced(self, draw: Draw) -> BuilderView {
        if self.carving {
            self.carved(draw.left)
        } else if self.laid(draw.seed).pending.len() == 0 {
            self.laid(draw.seed).reseeded(draw.order).promoted()
        } else {
            self.laid(draw.seed)
        }
    }

    /// Whether chance can decide so: the seed is one that the tile's edges
    /// offer, and the order is an order of the seeds.
    pub open spec fn allows(self, draw: Draw) -> bool {
        !self.carving ==> {
            &&& self.pending.len() > 0 ==> seed_candidates(
                self.tile(self.tiles.len() as int).vertices,
                self.pending[0].center,
            ).contains(draw.seed)
            &&& self.laid(draw.seed).pending.len() == 0 ==> draw.order.to_multiset() == self.laid(
                draw.seed,
            ).seeds.to_multiset()
        }
    }

    /// The builder after one unit of work for each of `draws`, in order.
    pub open spec fn run(self, draws: Seq<Draw>) -> BuilderView
        decreases draws.len(),
    {
        if draws.len() == 0 {
            self
        } else {
            self.run(draws.drop_last()).advanced(draws.last())
        }
    }

    /// Whether chance can decide each of `draws` in its turn.
    pub open spec fn permits(self, draws: Seq<Draw>) -> bool
        decreases draws.len(),
    {
        draws.len() == 0 || (self.permits(draws.drop_last()) && self.run(draws.drop_last()).allows(
            draws.last(),
        ))
    }
}

/// One more unit of work at the end of a run.
pub(crate) proof fn lemma_run_push(start: BuilderView, draws: Seq<Draw>, draw: Draw)
    ensures
        draws.push(draw).drop_last() == draws,
        start.run(draws.push(draw)) == start.run(draws).advanced(draw),
        start.permits(draws.push(draw)) == (start.permits(draws) && start.run(draws).allows(draw)),
{
    assert(draws.push(draw).drop_last() =~= draws);
}

/// Every tile that a builder holds is a tile of its grid: convex, and wound
/// counter-clockwise.
pub proof fn lemma_tiles_convex(view: BuilderView, i: int)
    requires
        view.wf(),
        0 <= i < view.tiles.len(),
    ensures
        winds(view.tiles[i].vertices, true),
{
    if view.carving {
        let k = view.tiles[i].id - 1;
        assert(view.tiles[i] == view.tile(k));
        lemma_grid_tile_convex(view.tile_size, view.width, view.height, k);
    } else {
        assert(view.tiles[i] == view.tile(i));
        lemma_grid_tile_convex(view.tile_size, view.width, view.height, i);
    }
}

/// Laying a tile keeps the builder's invariant.
pub proof fn lemma_laid_wf(view: BuilderView, seed: Carver)
    requires
        view.wf(),
    ensures
        view.laid(seed).wf(),
{
    if !view.carving && view.pending.len() > 0 {
        let after = view.laid(seed);
        assert forall|k: int| 0 <= k < after.tiles.len() implies #[trigger] after.tiles[k]
            == after.tile(k) by {
            if k < view.tiles.len() {
                assert(view.tiles[k] == view.tile(k));
            }
        }
    }
}

/// Setting the carvers to work keeps the builder's invariant.
pub proof fn lemma_promoted_wf(view: BuilderView)
    requires
        view.wf(),
    ensures
        view.promoted().wf(),
{
    if !view.carving && view.pending.len() == 0 {
        let after = view.promoted();
        lemma_grid_not_empty(view.tile_size, view.width, view.height);
        assert forall|i: int| 0 <= i < after.tiles.len() implies 1 <= (#[trigger] after.tiles[i]).id
            <= after.count() && after.tiles[i] == after.tile(after.tiles[i].id - 1) by {
            assert(view.tiles[i] == view.tile(i));
        }
        assert forall|i: int, j: int| 0 <= i < j < after.tiles.len() implies (
        #[trigger] after.tiles[i]).id != (#[trigger] after.tiles[j]).id by {
            assert(view.tiles[i] == view.tile(i));
            assert(view.tiles[j] == view.tile(j));
        }
    }
}

/// A carver's turn keeps the builder's invariant.
pub proof fn lemma_carved_wf(view: BuilderView, left: bool)
    requires
        view.wf(),
    ensures
        view.carved(left).wf(),
{
    if view.carving && view.carvers.len() > 0 {
        let after = view.carved(left);
        lemma_first_enclosing(view.tiles, view.carvers[0].position);
        match first_enclosing(view.tiles, view.carvers[0].position) {
            Some(i) => {
                let last = view.tiles.len() - 1;
                assert forall|k: int| 0 <= k < after.tiles.len() implies 1 <= (
                #[trigger] after.tiles[k]).id <= after.count() && after.tiles[k] == after.tile(
                    after.tiles[k].id - 1,
                ) by {
                    if k == i {
                        assert(after.tiles[k] == view.tiles[last]);
                    } else {
                        assert(after.tiles[k] == view.tiles[k]);
                    }
                }
                assert forall|k: int, l: int| 0 <= k < l < after.tiles.len() implies (
                #[trigger] after.tiles[k]).id != (#[trigger] after.tiles[l]).id by {
                    let from_k = if k == i {
                        last
                    } else {
                        k
                    };
                    let from_l = if l == i {
                        last
                    } else {
                        l
                    };
                    assert(after.tiles[k] == view.tiles[from_k]);
                    assert(after.tiles[l] == view.tiles[from_l]);
                }
            },
            None => {},
        }
    }
}

/// A unit of work keeps the builder's invariant, whatever chance decides.
pub proof fn lemma_advanced_wf(view: BuilderView, draw: Draw)
    requires
        view.wf(),
        view.allows(draw),
    ensures
        view.advanced(draw).wf(),
{
    if view.carving {
        lemma_carved_wf(view, draw.left);
    } else {
        lemma_laid_wf(view, draw.seed);
        let laid = view.laid(draw.seed);
        if laid.pending.len() == 0 {
            draw.order.to_multiset_ensures();
            laid.seeds.to_multiset_ensures();
            lemma_promoted_wf(laid.reseeded(draw.order));
        }
    }
}

/// Any number of units of work keep the builder's invariant.
pub proof fn lemma_run_wf(view: BuilderView, draws: Seq<Draw>)
    requires
        view.wf(),
        view.permits(draws),
    ensures
        view.run(draws).wf(),
    decreases draws.len(),
{
    if draws.len() > 0 {
        lemma_run_wf(view, draws.drop_last());
        lemma_advanced_wf(view.run(draws.drop_last()), draws.last());
    }
}

/// The grid stage takes one unit of work for each tile of the grid: after
/// fewer units the builder has laid as many tiles as it has done units, and
/// after that many the tiles are counted and the carvers set to work.
pub proof fn lemma_grid_stage(tile_size: int, width: int, height: int, draws: Seq<Draw>)
    requires
        workable(tile_size, width, height),
        BuilderView::initial(tile_size, width, height).permits(draws),
        draws.len() <= grid_count(tile_size, width, height),
    ensures
        ({
            let end = BuilderView::initial(tile_size, width, height).run(draws);
            let count = grid_count(tile_size, width, height);
            &&& end.tiles.len() == draws.len()
            &&& end.carving <==> draws.len() == count
            &&& end.carving ==> end.start == count
        }),
    decreases draws.len(),
{
    let first = BuilderView::initial(tile_size, width, height);
    lemma_grid_not_empty(tile_size, width, height);
    assert(first.wf());
    if draws.len() > 0 {
        lemma_grid_stage(tile_size, width, height, draws.drop_last());
        lemma_run_wf(first, draws.drop_last());
        lemma_run_same_grid(first, draws.drop_last());
    }
}

/// Whatever chance decides along the way, a builder that has reached the
/// carving stage has counted as many tiles as its grid has, which the tile
/// side and the region alone determine; and when it has finished, at most
/// half as many are left.
pub proof fn lemma_outcome(tile_size: int, width: int, height: int, draws: Seq<Draw>)
    requires
        workable(tile_size, width, height),
        BuilderView::initial(tile_size, width, height).permits(draws),
    ensures
        ({
            let end = BuilderView::initial(tile_size, width, height).run(draws);
            &&& end.wf()
            &&& end.carving ==> end.start == grid_count(tile_size, width, height)
            &&& end.finished() ==> 0 <= 2 * end.tiles.len() <= grid_count(tile_size, width, height)
        }),
{
    let first = BuilderView::initial(tile_size, width, height);
    lemma_grid_not_empty(tile_size, width, height);
    assert(first.wf());
    lemma_run_wf(first, draws);
    lemma_run_same_grid(first, draws);
}

/// Work changes neither the tile side nor the region.
pub proof fn lemma_run_same_grid(view: BuilderView, draws: Seq<Draw>)
    ensures
        view.run(draws).tile_size == view.tile_size,
        view.run(draws).width == view.width,
        view.run(draws).height == view.height,
    decreases draws.len(),
{
    if draws.len() > 0 {
        lemma_run_same_grid(view, draws.drop_last());
    }
}

} // verus!
