//! The grid of triangular tiles over a region: rows of tiles that point up
//! and down in turn, each row starting opposite to the one above, so that
//! neighbours meet edge to edge.

use crate::engine::convexity::{lemma_triangle_winds, winds};
use crate::engine::geometry::{
    apothem, half_side, lemma_successor, successor, triangle, triangle_fits, Point,
    TriangleOrientation,
};
use crate::engine::primitives::Shape;
use vstd::prelude::*;

verus! {

/// A grid cell that waits for its tile: where the tile goes, which way it
/// points, and which way the first tile of the next row will point.
#[derive(Clone, Copy, Debug, PartialEq, Eq, Structural)]
pub struct Cell {
    pub center: Point,
    pub orientation: TriangleOrientation,
    pub next_row: TriangleOrientation,
}

/// The largest tile side, width and height that a builder takes.
pub const MAX_SPAN: i32 = 0x4000_0000;

/// The distance between two rows of tiles: the height of a tile.
pub open spec fn row_step(tile_size: int) -> int {
    2 * apothem(tile_size)
}

/// The number of tiles in a row of the grid.
pub open spec fn columns(tile_size: int, width: int) -> int {
    2 * (width / 2) / half_side(tile_size) + 1
}

/// The number of rows of the grid.
pub open spec fn rows(tile_size: int, height: int) -> int {
    2 * (height / 2) / row_step(tile_size) + 1
}

/// The number of tiles of the grid.
pub open spec fn grid_count(tile_size: int, width: int, height: int) -> int {
    rows(tile_size, height) * columns(tile_size, width)
}

/// Whether a builder takes the tile side and the region: the tile has a
/// width and a height, the spans are in range, and the tiles can be counted.
pub open spec fn workable(tile_size: int, width: int, height: int) -> bool {
    &&& 3 <= tile_size <= MAX_SPAN
    &&& 0 <= width <= MAX_SPAN
    &&& 0 <= height <= MAX_SPAN
    &&& grid_count(tile_size, width, height) < usize::MAX
}

/// The cell in row `row`, counted from the top, and column `column`,
/// counted from the left. The first row starts with a tile that points up,
/// orientation alternates along a row, and each row starts opposite to the
/// one above.
pub open spec fn cell_at(tile_size: int, width: int, height: int, row: int, column: int) -> Cell {
    Cell {
        center: Point {
            x: (-(width / 2) + column * half_side(tile_size)) as i32,
            y: (height / 2 - row * row_step(tile_size)) as i32,
        },
        orientation: if (row + column) % 2 == 0 {
            TriangleOrientation::Up
        } else {
            TriangleOrientation::Down
        },
        next_row: if row % 2 == 0 {
            TriangleOrientation::Down
        } else {
            TriangleOrientation::Up
        },
    }
}

/// The `k`-th cell of the grid, row by row from the top left.
pub open spec fn grid_cell(tile_size: int, width: int, height: int, k: int) -> Cell {
    cell_at(
        tile_size,
        width,
        height,
        k / columns(tile_size, width),
        k % columns(tile_size, width),
    )
}

/// The `k`-th tile of the grid: its identity is its rank, from 1.
pub open spec fn grid_tile(tile_size: int, width: int, height: int, k: int) -> Shape {
    Shape {
        id: (k + 1) as usize,
        vertices: triangle(
            tile_size,
            grid_cell(tile_size, width, height, k).center,
            grid_cell(tile_size, width, height, k).orientation,
        ),
    }
}

/// Whether edge `i` of the ring `s` is edge `j` of the ring `t` the other
/// way round, as the common edge of two tiles side by side is.
pub open spec fn mirrored(s: Seq<Point>, i: int, t: Seq<Point>, j: int) -> bool {
    s[i] == successor(t, j) && successor(s, i) == t[j]
}

/// What division by a positive number means: `d * (a / d) <= a < d * (a / d + 1)`.
proof fn lemma_div_bracket(a: int, d: int)
    requires
        0 <= a,
        0 < d,
    ensures
        0 <= a / d,
        d * (a / d) <= a < d * (a / d + 1),
{
    vstd::arithmetic::div_mod::lemma_fundamental_div_mod(a, d);
    vstd::arithmetic::div_mod::lemma_mod_bound(a, d);
    vstd::arithmetic::div_mod::lemma_div_pos_is_pos(a, d);
    assert(d * (a / d + 1) == d * (a / d) + d) by (nonlinear_arith);
}

/// A number below `d * n` has a quotient below `n`.
proof fn lemma_quotient_below(k: int, d: int, n: int)
    requires
        0 <= k < d * n,
        0 < d,
    ensures
        0 <= k / d < n,
        0 <= k % d < d,
        k == d * (k / d) + k % d,
{
    lemma_div_bracket(k, d);
    vstd::arithmetic::div_mod::lemma_mod_bound(k, d);
    vstd::arithmetic::div_mod::lemma_fundamental_div_mod(k, d);
    let q = k / d;
    assert(q < n) by (nonlinear_arith)
        requires
            d * q <= k,
            k < d * n,
            0 < d,
    ;
}

/// The quotient and remainder of `d * q + r` for `0 <= r < d`.
pub(crate) proof fn lemma_quotient_of(d: int, q: int, r: int)
    requires
        0 < d,
        0 <= r < d,
    ensures
        (d * q + r) / d == q,
        (d * q + r) % d == r,
{
    assert(d * q == q * d) by (nonlinear_arith);
    vstd::arithmetic::div_mod::lemma_fundamental_div_mod_converse_div(d * q + r, d, q, r);
    vstd::arithmetic::div_mod::lemma_fundamental_div_mod_converse_mod(d * q + r, d, q, r);
}

/// A grid has at least one tile.
pub proof fn lemma_grid_not_empty(tile_size: int, width: int, height: int)
    requires
        3 <= tile_size <= MAX_SPAN,
        0 <= width <= MAX_SPAN,
        0 <= height <= MAX_SPAN,
    ensures
        1 <= columns(tile_size, width) <= 2 * (width / 2) + 1,
        1 <= rows(tile_size, height) <= 2 * (height / 2) + 1,
        1 <= grid_count(tile_size, width, height),
{
    let half = half_side(tile_size);
    let step = row_step(tile_size);
    lemma_div_bracket(2 * (width / 2), half);
    lemma_div_bracket(2 * (height / 2), step);
    let qc = 2 * (width / 2) / half;
    let qr = 2 * (height / 2) / step;
    assert(qc <= half * qc) by (nonlinear_arith)
        requires
            0 <= qc,
            1 <= half,
    ;
    assert(qr <= step * qr) by (nonlinear_arith)
        requires
            0 <= qr,
            1 <= step,
    ;
    assert(1 <= (qr + 1) * (qc + 1)) by (nonlinear_arith)
        requires
            0 <= qc,
            0 <= qr,
    ;
}

/// Where the `k`-th cell of the grid lies, and which cell follows it: its
/// right neighbour while that is within the width, else the first cell of
/// the next row while that is within the height, else none.
pub proof fn lemma_grid_step(tile_size: int, width: int, height: int, k: int)
    requires
        workable(tile_size, width, height),
        0 <= k < grid_count(tile_size, width, height),
    ensures
        ({
            let cell = grid_cell(tile_size, width, height, k);
            let next = grid_cell(tile_size, width, height, k + 1);
            let half = half_side(tile_size);
            let step = row_step(tile_size);
            &&& triangle_fits(tile_size, cell.center)
            &&& cell.center.x == -(width / 2) + (k % columns(tile_size, width)) * half
            &&& cell.center.y == height / 2 - (k / columns(tile_size, width)) * step
            &&& -(width / 2) <= cell.center.x <= width / 2
            &&& -(height / 2) <= cell.center.y <= height / 2
            &&& if cell.center.x + half <= width / 2 {
                &&& k + 1 < grid_count(tile_size, width, height)
                &&& next.center.x == cell.center.x + half
                &&& next.center.y == cell.center.y
                &&& next.orientation == cell.orientation.spec_opposite()
                &&& next.next_row == cell.next_row
            } else if cell.center.y - step >= -(height / 2) {
                &&& k + 1 < grid_count(tile_size, width, height)
                &&& next.center.x == -(width / 2)
                &&& next.center.y == cell.center.y - step
                &&& next.orientation == cell.next_row
                &&& next.next_row == cell.next_row.spec_opposite()
            } else {
                k + 1 == grid_count(tile_size, width, height)
            }
        }),
{
    let half = half_side(tile_size);
    let step = row_step(tile_size);
    let w2 = width / 2;
    let h2 = height / 2;
    let cols = columns(tile_size, width);
    let rws = rows(tile_size, height);
    let qc = 2 * w2 / half;
    let qr = 2 * h2 / step;
    lemma_div_bracket(2 * w2, half);
    lemma_div_bracket(2 * h2, step);
    assert(rws * cols == cols * rws) by (nonlinear_arith);
    lemma_quotient_below(k, cols, rws);
    let r = k / cols;
    let c = k % cols;
    assert(c * half <= 2 * w2) by (nonlinear_arith)
        requires
            0 <= c <= qc,
            0 < half,
            half * qc <= 2 * w2,
    ;
    assert(r * step <= 2 * h2) by (nonlinear_arith)
        requires
            0 <= r <= qr,
            0 < step,
            step * qr <= 2 * h2,
    ;
    assert(0 <= c * half) by (nonlinear_arith)
        requires
            0 <= c,
            0 < half,
    ;
    assert(0 <= r * step) by (nonlinear_arith)
        requires
            0 <= r,
            0 < step,
    ;
    let cell = grid_cell(tile_size, width, height, k);
    assert(cell.center.x == -w2 + c * half);
    assert(cell.center.y == h2 - r * step);
    assert((c + 1) * half == c * half + half) by (nonlinear_arith);
    assert((r + 1) * step == r * step + step) by (nonlinear_arith);
    assert(cols * (r + 1) == cols * r + cols) by (nonlinear_arith);
    if cell.center.x + half <= w2 {
        assert(c + 1 < cols) by (nonlinear_arith)
            requires
                (c + 1) * half <= 2 * w2,
                2 * w2 < half * (qc + 1),
                cols == qc + 1,
                0 < half,
        ;
        lemma_quotient_of(cols, r, c + 1);
        assert(cols * (r + 1) <= cols * rws) by (nonlinear_arith)
            requires
                r + 1 <= rws,
                0 < cols,
        ;
    } else {
        assert(c + 1 >= cols) by (nonlinear_arith)
            requires
                (c + 1) * half > 2 * w2,
                half * qc <= 2 * w2,
                cols == qc + 1,
                0 < half,
        ;
        assert(k + 1 == cols * (r + 1));
        if cell.center.y - step >= -h2 {
            assert(r + 1 < rws) by (nonlinear_arith)
                requires
                    (r + 1) * step <= 2 * h2,
                    2 * h2 < step * (qr + 1),
                    rws == qr + 1,
                    0 < step,
            ;
            lemma_quotient_of(cols, r + 1, 0);
            assert(cols * (r + 2) <= cols * rws) by (nonlinear_arith)
                requires
                    r + 2 <= rws,
                    0 < cols,
            ;
            assert(cols * (r + 2) == cols * (r + 1) + cols) by (nonlinear_arith);
            assert(0 * half == 0);
        } else {
            assert(r + 1 >= rws) by (nonlinear_arith)
                requires
                    (r + 1) * step > 2 * h2,
                    step * qr <= 2 * h2,
                    rws == qr + 1,
                    0 < step,
            ;
        }
    }
}

/// Every tile of the grid is convex and winds counter-clockwise.
pub proof fn lemma_grid_tile_convex(tile_size: int, width: int, height: int, k: int)
    requires
        workable(tile_size, width, height),
        0 <= k < grid_count(tile_size, width, height),
    ensures
        winds(grid_tile(tile_size, width, height, k).vertices, true),
{
    lemma_grid_step(tile_size, width, height, k);
    let cell = grid_cell(tile_size, width, height, k);
    lemma_triangle_winds(tile_size, cell.center, cell.orientation);
}

/// A tile and its right neighbour in the row have an edge in common: the
/// slanted edge between them.
pub proof fn lemma_row_edge_matched(tile_size: int, width: int, height: int, k: int)
    requires
        workable(tile_size, width, height),
        0 <= k < grid_count(tile_size, width, height),
        grid_cell(tile_size, width, height, k).center.x + half_side(tile_size) <= width / 2,
    ensures
        k + 1 < grid_count(tile_size, width, height),
        ({
            let edge: int = if grid_cell(tile_size, width, height, k).orientation
                == TriangleOrientation::Up {
                2
            } else {
                0
            };
            mirrored(
                grid_tile(tile_size, width, height, k).vertices,
                edge,
                grid_tile(tile_size, width, height, k + 1).vertices,
                edge,
            )
        }),
{
    lemma_grid_step(tile_size, width, height, k);
    lemma_grid_step(tile_size, width, height, k + 1);
    let here = grid_tile(tile_size, width, height, k).vertices;
    let next = grid_tile(tile_size, width, height, k + 1).vertices;
    lemma_successor(here, 0);
    lemma_successor(here, 2);
    lemma_successor(next, 0);
    lemma_successor(next, 2);
}

/// A tile that points up and the tile below it in the next row have an edge
/// in common: the level edge between them.
pub proof fn lemma_rows_edge_matched(tile_size: int, width: int, height: int, k: int)
    requires
        workable(tile_size, width, height),
        0 <= k,
        k + columns(tile_size, width) < grid_count(tile_size, width, height),
        grid_cell(tile_size, width, height, k).orientation == TriangleOrientation::Up,
    ensures
        mirrored(
            grid_tile(tile_size, width, height, k).vertices,
            1,
            grid_tile(tile_size, width, height, k + columns(tile_size, width)).vertices,
            1,
        ),
{
    let cols = columns(tile_size, width);
    let rws = rows(tile_size, height);
    lemma_grid_not_empty(tile_size, width, height);
    assert(rws * cols == cols * rws) by (nonlinear_arith);
    lemma_quotient_below(k, cols, rws);
    let r = k / cols;
    let c = k % cols;
    assert(cols * (r + 1) == cols * r + cols) by (nonlinear_arith);
    lemma_quotient_of(cols, r + 1, c);
    assert((r + 1) * row_step(tile_size) == r * row_step(tile_size) + row_step(tile_size))
        by (nonlinear_arith);
    lemma_grid_step(tile_size, width, height, k);
    lemma_grid_step(tile_size, width, height, k + cols);
    let here = grid_tile(tile_size, width, height, k).vertices;
    let below = grid_tile(tile_size, width, height, k + cols).vertices;
    lemma_successor(here, 1);
    lemma_successor(below, 1);
}

} // verus!
