//! The game board and its coordinate mapper.
//!
//! The board is a grid of `GRID_W` columns by `GRID_H` rows.  A cell is
//! addressed by `(col, row)` with row 0 at the top.  Each cell also has a
//! world-space position (the center of its sprite): the board is laid out
//! on a fixed arena, one world unit per pixel, `CELL_WORLD` units per
//! cell, and every position the simulation ever produces is cell-aligned,
//! so world coordinates stay integral.

use vstd::prelude::*;

verus! {

/// Number of columns of the board.
pub const GRID_W: i32 = 30;

/// Number of rows of the board.
pub const GRID_H: i32 = 20;

/// World units per grid cell.
pub const CELL_WORLD: i32 = 30;

/// World x of the center of column 0: the left wall sits at -455 and is
/// 10 units thick, and a cell is 30 units wide, so column 0's center is
/// at -455 + 30/2 + 10/2.
pub const ORIGIN_X: i32 = -435;

/// World y of the center of row 0: the top wall sits at 305 and is 10
/// units thick, and rows grow downward, so row 0's center is at
/// 305 - 30/2 - 10/2.
pub const ORIGIN_Y: i32 = 285;

/// One grid cell, addressed by column and row.
#[derive(Clone, Copy, PartialEq, Eq, Structural, Debug)]
pub struct Cell {
    pub col: i32,
    pub row: i32,
}

/// A world-space position (always cell-aligned in this core).
#[derive(Clone, Copy, PartialEq, Eq, Structural, Debug)]
pub struct WorldPos {
    pub x: i32,
    pub y: i32,
}

/// A cell on the playing field proper.
pub open spec fn in_grid(c: Cell) -> bool {
    0 <= c.col < GRID_W && 0 <= c.row < GRID_H
}

/// A cell on the field or one step beyond it: the head may stand one
/// cell outside the field for the single tick in which it dies there.
pub open spec fn in_ext(c: Cell) -> bool {
    -1 <= c.col <= GRID_W && -1 <= c.row <= GRID_H
}

/// The world position of a cell's center, as the mapper computes it.
pub open spec fn grid_position_spec(col: int, row: int) -> (int, int) {
    (ORIGIN_X as int + CELL_WORLD as int * col, ORIGIN_Y as int - CELL_WORLD as int * row)
}

/// The cell whose center sits at a cell-aligned world position, as the
/// mapper computes it.
pub open spec fn grid_number_spec(x: int, y: int) -> (int, int) {
    (
        (x - ORIGIN_X as int + CELL_WORLD as int) / (CELL_WORLD as int) - 1,
        (ORIGIN_Y as int - y + CELL_WORLD as int) / (CELL_WORLD as int) - 1,
    )
}

/// Mapper round trip: converting a cell to its world position and back
/// yields the same cell, for every cell of the board (and in fact for
/// every cell of the extended board).
pub proof fn lemma_grid_roundtrip(col: int, row: int)
    requires
        -1 <= col <= GRID_W,
        -1 <= row <= GRID_H,
    ensures
        grid_number_spec(grid_position_spec(col, row).0, grid_position_spec(col, row).1)
            == (col, row),
{
    let x = ORIGIN_X as int + CELL_WORLD as int * col;
    let y = ORIGIN_Y as int - CELL_WORLD as int * row;
    assert((x - ORIGIN_X as int + CELL_WORLD as int) == CELL_WORLD as int * (col + 1));
    assert((ORIGIN_Y as int - y + CELL_WORLD as int) == CELL_WORLD as int * (row + 1));
    assert((CELL_WORLD as int * (col + 1)) / (CELL_WORLD as int) == col + 1) by (nonlinear_arith)
        requires -1 <= col <= GRID_W as int;
    assert((CELL_WORLD as int * (row + 1)) / (CELL_WORLD as int) == row + 1) by (nonlinear_arith)
        requires -1 <= row <= GRID_H as int;
}

/// World position of a cell's center (the mapper's cell-to-world
/// direction).
pub fn get_grid_position(col: i32, row: i32) -> (p: WorldPos)
    requires
        -1 <= col <= GRID_W,
        -1 <= row <= GRID_H,
    ensures
        p.x as int == grid_position_spec(col as int, row as int).0,
        p.y as int == grid_position_spec(col as int, row as int).1,
{
    WorldPos { x: ORIGIN_X + CELL_WORLD * col, y: ORIGIN_Y - CELL_WORLD * row }
}

/// Cell of a cell-aligned world position (the mapper's world-to-cell
/// direction).  The simulation only ever applies it to segment centers,
/// which are cell-aligned, so no rounding ambiguity arises.
pub fn get_grid_number(p: WorldPos) -> (c: Cell)
    requires
        (p.x as int - ORIGIN_X as int) % (CELL_WORLD as int) == 0,
        (ORIGIN_Y as int - p.y as int) % (CELL_WORLD as int) == 0,
        ORIGIN_X as int - CELL_WORLD as int <= p.x as int
            <= ORIGIN_X as int + CELL_WORLD as int * (GRID_W as int + 1),
        ORIGIN_Y as int - CELL_WORLD as int * (GRID_H as int + 1) <= p.y as int
            <= ORIGIN_Y as int + CELL_WORLD as int,
    ensures
        c.col as int == grid_number_spec(p.x as int, p.y as int).0,
        c.row as int == grid_number_spec(p.x as int, p.y as int).1,
{
    let dx: u32 = (p.x - ORIGIN_X + CELL_WORLD) as u32;
    let dy: u32 = (ORIGIN_Y - p.y + CELL_WORLD) as u32;
    let col = (dx / (CELL_WORLD as u32)) as i32 - 1;
    let row = (dy / (CELL_WORLD as u32)) as i32 - 1;
    proof {
        assert(dx as int == p.x as int - ORIGIN_X as int + CELL_WORLD as int);
        assert(dy as int == ORIGIN_Y as int - p.y as int + CELL_WORLD as int);
    }
    Cell { col, row }
}

} // verus!
