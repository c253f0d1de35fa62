//! The grid of cells, the tiles it holds, and the coordinate geometry that
//! maps board indices to world-space positions.

use vstd::prelude::*;

verus! {

/// Number of columns on the board.
pub const BOARD_WIDTH: usize = 10;
/// Number of rows of the playable (visible) area.
pub const BOARD_VISIBLE_HEIGHT: usize = 10;
/// Total number of stored rows: the visible area plus the hidden reservoir
/// of equal height stacked above it.
pub const BOARD_HEIGHT: usize = BOARD_VISIBLE_HEIGHT * 2;
/// Side length of a tile, in world units.
pub const BOARD_TILE_SIZE: i64 = 75;
/// Gap between neighbouring cells, in world units.
pub const CELL_BORDER_WIDTH: i64 = 2;
/// Distance between the centres of two adjacent cells.
pub const CELL_PITCH: i64 = BOARD_TILE_SIZE + CELL_BORDER_WIDTH;
/// World-space coordinate of column 0 (and of row 0): the board is centred,
/// so this equals `-(BOARD_WIDTH * CELL_PITCH) / 2`.
pub const BOARD_ORIGIN_X: i64 = -385;
/// World-space coordinate of row 0; equals
/// `-(BOARD_VISIBLE_HEIGHT * CELL_PITCH) / 2`.
pub const BOARD_ORIGIN_Y: i64 = -385;
/// How far a moving tile travels in one second, in world units.
pub const TILE_VELOCITY: i64 = 200;

/// A position in continuous world space, in integer world units.
#[derive(Clone, Copy, PartialEq, Eq, Structural, Debug)]
pub struct Point {
    pub x: i64,
    pub y: i64,
}

/// The visual kind of a tile: a small closed set of forms.
#[derive(Clone, Copy, PartialEq, Eq, Structural, Debug)]
pub enum Form {
    Circle,
    Square,
    Triangle,
}

/// A `(row, col)` pair addressing one cell of the board.
/// Row index increases upward, column index increases rightward.
#[derive(Clone, Copy, PartialEq, Eq, Structural, Debug)]
pub struct BoardIndex(pub usize, pub usize);

impl BoardIndex {
    pub fn row_id(&self) -> (r: usize)
        ensures
            r == self.0,
    {
        self.0
    }

    pub fn col_id(&self) -> (r: usize)
        ensures
            r == self.1,
    {
        self.1
    }
}

/// The motion state of a tile: resting at its cell, or gliding from the
/// position of one cell toward the position of another.
#[derive(Clone, Copy, PartialEq, Eq, Structural, Debug)]
pub enum TileState {
    Idle,
    Moving { from: BoardIndex, to: BoardIndex },
}

/// A tile: an immutable kind, two opaque presentation handles assigned by the
/// core, the authoritative world-space position, and the motion state.
#[derive(Clone, Copy, PartialEq, Eq, Structural, Debug)]
pub struct Tile {
    pub form: Form,
    pub entity: u64,
    pub select_area_entity: u64,
    pub pos: Point,
    pub state: TileState,
}

/// One cell of the grid, holding at most one tile.
#[derive(Clone, Copy)]
pub struct Cell {
    pub tile: Option<Tile>,
}

impl Cell {
    /// Edge length of the cell's square footprint, border included.
    pub fn size(&self) -> (r: i64)
        ensures
            r == CELL_PITCH,
    {
        self.tile_size() + CELL_BORDER_WIDTH
    }

    /// Edge length of the tile drawn inside the cell.
    pub fn tile_size(&self) -> (r: i64)
        ensures
            r == BOARD_TILE_SIZE,
    {
        BOARD_TILE_SIZE
    }
}

/// World-space x of the centre of column `c`.
pub open spec fn col_x(c: int) -> int {
    BOARD_ORIGIN_X + c * CELL_PITCH
}

/// World-space y of the centre of row `r`.
pub open spec fn row_y(r: int) -> int {
    BOARD_ORIGIN_Y + r * CELL_PITCH
}

/// The world-space centre of the cell at `idx`.
pub open spec fn cell_point(idx: BoardIndex) -> Point {
    Point { x: col_x(idx.1 as int) as i64, y: row_y(idx.0 as int) as i64 }
}

/// The board holds exactly `BOARD_HEIGHT` rows of `BOARD_WIDTH` cells each.
pub open spec fn well_sized(b: Seq<Seq<Cell>>) -> bool {
    &&& b.len() == BOARD_HEIGHT
    &&& forall|r: int| 0 <= r < b.len() ==> (#[trigger] b[r]).len() == BOARD_WIDTH
}

/// `idx` addresses an existing cell of `b`.
pub open spec fn idx_in_bounds(b: Seq<Seq<Cell>>, idx: BoardIndex) -> bool {
    &&& idx.0 < b.len()
    &&& idx.1 < b[idx.0 as int].len()
}

/// The tile stored at `(r, c)`.
pub open spec fn tile_at(b: Seq<Seq<Cell>>, r: int, c: int) -> Option<Tile> {
    b[r][c].tile
}

/// The tile at `(r, c)`, or `None` when the position is outside the stored
/// grid or the cell is empty.
pub open spec fn cell_tile(b: Seq<Seq<Cell>>, r: int, c: int) -> Option<Tile> {
    if 0 <= r < b.len() && 0 <= c < b[r].len() {
        b[r][c].tile
    } else {
        None
    }
}

/// The kind of the tile at `(r, c)`, if any: the board's arrangement of
/// tile kinds, with handles, positions and motion abstracted away.
pub open spec fn kind_at(b: Seq<Seq<Cell>>, r: int, c: int) -> Option<Form> {
    match cell_tile(b, r, c) {
        Some(t) => Some(t.form),
        None => None,
    }
}

/// The 2D array of cells: all playable and reservoir positions.
pub struct Board(pub Vec<Vec<Cell>>);

impl View for Board {
    type V = Seq<Seq<Cell>>;

    open spec fn view(&self) -> Seq<Seq<Cell>> {
        self.0@.map_values(|row: Vec<Cell>| row@)
    }
}

impl Board {
    /// An empty board; rows are added with `push_row` until the full height
    /// is reached.
    pub fn new() -> (b: Board)
        ensures
            b@.len() == 0,
    {
        Board(Vec::new())
    }

    pub fn width(&self) -> (r: usize)
        ensures
            r == BOARD_WIDTH,
    {
        BOARD_WIDTH
    }

    pub fn height(&self) -> (r: usize)
        ensures
            r == BOARD_HEIGHT,
    {
        BOARD_HEIGHT
    }

    pub fn visible_height(&self) -> (r: usize)
        ensures
            r == BOARD_VISIBLE_HEIGHT,
    {
        BOARD_VISIBLE_HEIGHT
    }

    /// Distance between the centres of two adjacent cells.
    pub fn cell_size(&self) -> (r: i64)
        ensures
            r == CELL_PITCH,
    {
        self.tile_size() + CELL_BORDER_WIDTH
    }

    pub fn tile_size(&self) -> (r: i64)
        ensures
            r == BOARD_TILE_SIZE,
    {
        BOARD_TILE_SIZE
    }

    pub fn border_width(&self) -> (r: i64)
        ensures
            r == CELL_BORDER_WIDTH,
    {
        CELL_BORDER_WIDTH
    }

    /// World-space centre of the cell at row 0, column 0.
    pub fn bottom_left(&self) -> (p: Point)
        ensures
            p.x == col_x(0),
            p.y == row_y(0),
    {
        Point { x: BOARD_ORIGIN_X, y: BOARD_ORIGIN_Y }
    }

    /// World-space centre of the far corner cell of the visible area.
    pub fn top_right(&self) -> (p: Point)
        ensures
            p.x == col_x(BOARD_WIDTH - 1),
            p.y == row_y(BOARD_VISIBLE_HEIGHT - 1),
    {
        let bl = self.bottom_left();
        Point {
            x: bl.x + (BOARD_VISIBLE_HEIGHT as i64 - 1) * self.cell_size(),
            y: bl.y + (BOARD_WIDTH as i64 - 1) * self.cell_size(),
        }
    }

    /// Maps a board index to the world-space centre of its cell.
    pub fn get_cell_coord(&self, idx: BoardIndex) -> (p: Point)
        requires
            idx.0 < BOARD_HEIGHT,
            idx.1 < BOARD_WIDTH,
        ensures
            p == cell_point(idx),
            p.x == col_x(idx.1 as int),
            p.y == row_y(idx.0 as int),
    {
        let bl = self.bottom_left();
        Point {
            x: bl.x + (idx.1 as i64) * self.cell_size(),
            y: bl.y + (idx.0 as i64) * self.cell_size(),
        }
    }

    /// Appends one row at the top of the stored grid.
    pub fn push_row(&mut self, row: Vec<Cell>)
        requires
            row@.len() == BOARD_WIDTH,
        ensures
            final(self)@ == old(self)@.push(row@),
    {
        self.0.push(row);
    }

    /// The row at `idx`, or `None` when `idx` is outside the stored rows.
    pub fn get_row(&self, idx: usize) -> (r: Option<&Vec<Cell>>)
        ensures
            match r {
                Some(row) => idx < self@.len() && row@ == self@[idx as int],
                None => idx >= self@.len(),
            },
    {
        if idx < self.0.len() {
            Some(&self.0[idx])
        } else {
            None
        }
    }

    /// Bounds-checked cell read; `None` reports the out-of-bounds condition.
    pub fn get(&self, idx: BoardIndex) -> (r: Option<&Cell>)
        ensures
            match r {
                Some(cell) => idx_in_bounds(self@, idx) && *cell == self@[idx.0 as int][idx.1 as int],
                None => !idx_in_bounds(self@, idx),
            },
    {
        if idx.0 < self.0.len() {
            let row = &self.0[idx.0];
            if idx.1 < row.len() {
                Some(&row[idx.1])
            } else {
                None
            }
        } else {
            None
        }
    }

    /// Overwrites the cell at an in-bounds index.
    pub fn set_cell(&mut self, idx: BoardIndex, cell: Cell)
        requires
            idx_in_bounds(old(self)@, idx),
        ensures
            final(self)@ == old(self)@.update(
                idx.0 as int,
                old(self)@[idx.0 as int].update(idx.1 as int, cell),
            ),
    {
        let row = &mut self.0[idx.0];
        row.set(idx.1, cell);
    }

    /// Exchanges the tile contents of two cells. Motion state travels with
    /// each tile; callers that animate the exchange set it separately.
    pub fn swap(&mut self, a: BoardIndex, b: BoardIndex)
        requires
            idx_in_bounds(old(self)@, a),
            idx_in_bounds(old(self)@, b),
        ensures
            well_sized(old(self)@) ==> well_sized(final(self)@),
            final(self)@.len() == old(self)@.len(),
            forall|r: int| 0 <= r < final(self)@.len() ==> (#[trigger] final(self)@[r]).len() == old(self)@[r].len(),
            final(self)@[a.0 as int][a.1 as int].tile == old(self)@[b.0 as int][b.1 as int].tile,
            final(self)@[b.0 as int][b.1 as int].tile == old(self)@[a.0 as int][a.1 as int].tile,
            forall|r: int, c: int|
                0 <= r < final(self)@.len() && 0 <= c < final(self)@[r].len()
                    && !(r == a.0 as int && c == a.1 as int) && !(r == b.0 as int && c == b.1 as int)
                    ==> #[trigger] final(self)@[r][c] == old(self)@[r][c],
    {
        let ca = *self.get(a).unwrap();
        let cb = *self.get(b).unwrap();
        self.set_cell(a, cb);
        self.set_cell(b, ca);
    }
}

/// Law: the map from board index to cell centre is strictly monotonic per
/// axis (increasing row strictly increases y, increasing column strictly
/// increases x) and therefore injective: distinct indices map to distinct
/// points.
pub proof fn lemma_cell_position_injective_monotonic(r1: int, c1: int, r2: int, c2: int)
    ensures
        r1 < r2 ==> row_y(r1) < row_y(r2),
        c1 < c2 ==> col_x(c1) < col_x(c2),
        (r1 != r2 || c1 != c2) ==> !(row_y(r1) == row_y(r2) && col_x(c1) == col_x(c2)),
{
}

/// Law: on the stored grid, two indices with the same cell centre are the
/// same index.
pub proof fn lemma_cell_point_injective(a: BoardIndex, b: BoardIndex)
    requires
        a.0 < BOARD_HEIGHT,
        a.1 < BOARD_WIDTH,
        b.0 < BOARD_HEIGHT,
        b.1 < BOARD_WIDTH,
    ensures
        cell_point(a) == cell_point(b) ==> a == b,
{
    lemma_cell_position_injective_monotonic(a.0 as int, a.1 as int, b.0 as int, b.1 as int);
}

} // verus!
