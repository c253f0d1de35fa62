//! The per-tile motion state machine: a `Moving` tile glides from the centre
//! of one cell toward the centre of another at a fixed speed and snaps to the
//! target once one tick's travel would reach it.

use vstd::prelude::*;

use crate::board::{
    kind_at, Board, BoardIndex, Cell, Point, Tile, TileState, cell_point, col_x, row_y,
    well_sized, BOARD_HEIGHT, BOARD_WIDTH, CELL_PITCH,
};

verus! {

/// Upper bound on the distance a tile may be asked to travel in one tick;
/// keeps the position arithmetic inside `i64`.
pub const MAX_TICK_STEP: i64 = 1000000;

/// The sign of an integer: -1, 0 or 1.
pub open spec fn signum(a: int) -> int {
    if a > 0 {
        1
    } else if a < 0 {
        -1
    } else {
        0
    }
}

/// Absolute value of an integer.
pub open spec fn abs_of(a: int) -> int {
    if a >= 0 {
        a
    } else {
        -a
    }
}

/// Well-formed motion along a single axis: `p` lies on the approach side of
/// the target `t` as seen from the start `f`, has not yet arrived, and stays
/// inside the coordinate envelope `[lo, hi]`.
pub open spec fn axis_motion_wf(f: int, t: int, p: int, lo: int, hi: int) -> bool {
    &&& f != t
    &&& signum(t - p) == signum(t - f)
    &&& p != t
    &&& if f < t {
        f <= p <= hi
    } else {
        lo <= p && t < p <= hi
    }
}

/// Well-formedness of one tile stored in the cell at `(r, c)`:
/// an `Idle` tile rests exactly at its cell's centre; a `Moving` tile is
/// stored in its destination cell, moves parallel to one axis, and its
/// position approaches the destination from the origin's side.
pub open spec fn tile_wf(t: Tile, r: int, c: int) -> bool {
    match t.state {
        TileState::Idle => t.pos.x == col_x(c) && t.pos.y == row_y(r),
        TileState::Moving { from, to } => {
            &&& to.0 == r
            &&& to.1 == c
            &&& from.0 < BOARD_HEIGHT
            &&& from.1 < BOARD_WIDTH
            &&& to.0 < BOARD_HEIGHT
            &&& to.1 < BOARD_WIDTH
            &&& {
                ||| (from.0 == to.0 && t.pos.y == row_y(r) && axis_motion_wf(
                    col_x(from.1 as int),
                    col_x(to.1 as int),
                    t.pos.x as int,
                    col_x(0),
                    col_x(BOARD_WIDTH - 1),
                ))
                ||| (from.1 == to.1 && t.pos.x == col_x(c) && axis_motion_wf(
                    row_y(from.0 as int),
                    row_y(to.0 as int),
                    t.pos.y as int,
                    row_y(0),
                    row_y(BOARD_HEIGHT - 1),
                ))
            }
        },
    }
}

/// Every tile on the board is well formed for the cell that holds it.
pub open spec fn board_tiles_wf(b: Seq<Seq<Cell>>) -> bool {
    forall|r: int, c: int|
        0 <= r < b.len() && 0 <= c < b[r].len() && b[r][c].tile is Some
            ==> tile_wf((#[trigger] b[r][c]).tile->Some_0, r, c)
}

/// One tick of motion for a single tile. The direction is the unit vector
/// from the origin cell toward the destination cell, fixed at transition
/// entry; the position advances by `delta` along it and snaps to the target
/// once the remaining offset fits within `delta` on both axes.
pub open spec fn spec_advance(t: Tile, delta: int) -> Tile {
    match t.state {
        TileState::Idle => t,
        TileState::Moving { from, to } => {
            let tx = col_x(to.1 as int);
            let ty = row_y(to.0 as int);
            let dx = signum(to.1 as int - from.1 as int);
            let dy = signum(to.0 as int - from.0 as int);
            let nx = t.pos.x + dx * delta;
            let ny = t.pos.y + dy * delta;
            if abs_of(tx - nx) <= delta && abs_of(ty - ny) <= delta {
                Tile { pos: Point { x: tx as i64, y: ty as i64 }, state: TileState::Idle, ..t }
            } else {
                Tile { pos: Point { x: nx as i64, y: ny as i64 }, ..t }
            }
        },
    }
}

/// The tile after `n` ticks of motion with per-tick travel `delta`.
pub open spec fn advance_n(t: Tile, delta: int, n: int) -> Tile
    decreases n,
{
    if n <= 0 {
        t
    } else {
        advance_n(spec_advance(t, delta), delta, n - 1)
    }
}

/// Remaining distance from a tile's position to the centre of its
/// destination cell (zero for an idle tile).
pub open spec fn rem_dist(t: Tile) -> int {
    match t.state {
        TileState::Idle => 0,
        TileState::Moving { from, to } => abs_of(col_x(to.1 as int) - t.pos.x)
            + abs_of(row_y(to.0 as int) - t.pos.y),
    }
}

/// Number of ticks after which a tile is guaranteed to have settled:
/// its remaining distance divided by the per-tick travel, rounded up.
pub open spec fn ticks_to_settle(t: Tile, delta: int) -> int {
    (rem_dist(t) + delta - 1) / delta
}

/// Law: a tile's motion state is `Moving` exactly when its position differs
/// from the centre of the cell that holds it.
pub proof fn lemma_moving_iff_displaced(t: Tile, idx: BoardIndex)
    requires
        tile_wf(t, idx.0 as int, idx.1 as int),
    ensures
        (t.state is Moving) <==> t.pos != cell_point(idx),
{
}

/// One tick of well-formed motion stays well formed: the tile either snaps
/// to its destination and becomes idle, or keeps approaching it with its
/// remaining distance reduced by exactly `delta`.
pub proof fn lemma_advance_wf(t: Tile, r: int, c: int, delta: int)
    requires
        tile_wf(t, r, c),
        0 < delta,
    ensures
        tile_wf(spec_advance(t, delta), r, c),
        t.state is Idle ==> spec_advance(t, delta) == t,
        t.state is Moving ==> {
            ||| (spec_advance(t, delta).state is Idle && rem_dist(t) <= 2 * delta)
            ||| rem_dist(spec_advance(t, delta)) == rem_dist(t) - delta
        },
        spec_advance(t, delta).form == t.form,
        spec_advance(t, delta).entity == t.entity,
        spec_advance(t, delta).select_area_entity == t.select_area_entity,
        spec_advance(t, delta).state is Moving ==> spec_advance(t, delta).state == t.state,
{
}

/// Law: after enough ticks (remaining distance over per-tick travel, rounded
/// up), a tile is idle and rests exactly at the centre of its cell.
pub proof fn lemma_motion_settles(t: Tile, idx: BoardIndex, delta: int, n: int)
    requires
        tile_wf(t, idx.0 as int, idx.1 as int),
        0 < delta,
        n >= ticks_to_settle(t, delta),
    ensures
        advance_n(t, delta, n).state is Idle,
        advance_n(t, delta, n).pos == cell_point(idx),
    decreases n,
{
    if t.state is Idle {
        lemma_advance_n_idle(t, delta, n);
    } else {
        lemma_advance_wf(t, idx.0 as int, idx.1 as int, delta);
        let d = rem_dist(t);
        assert(d >= 1);
        assert((d + delta - 1) / delta >= 1) by (nonlinear_arith)
            requires
                d >= 1,
                delta >= 1,
        ;
        let t2 = spec_advance(t, delta);
        if t2.state is Idle {
            lemma_advance_n_idle(t2, delta, n - 1);
        } else {
            assert(rem_dist(t2) == d - delta);
            assert((d - delta + delta - 1) / delta <= (d + delta - 1) / delta - 1)
                by (nonlinear_arith)
                requires
                    d >= 1,
                    delta >= 1,
            ;
            lemma_motion_settles(t2, idx, delta, n - 1);
        }
    }
}

/// An idle tile is unchanged by any number of ticks.
pub proof fn lemma_advance_n_idle(t: Tile, delta: int, n: int)
    requires
        t.state is Idle,
    ensures
        advance_n(t, delta, n) == t,
    decreases n,
{
    if n > 0 {
        lemma_advance_n_idle(t, delta, n - 1);
    }
}

/// The whole board after one tick of motion with per-tick travel `delta`.
pub open spec fn spec_advance_board(b: Seq<Seq<Cell>>, delta: int) -> Seq<Seq<Cell>> {
    Seq::new(
        b.len(),
        |r: int|
            Seq::new(
                b[r].len(),
                |c: int|
                    Cell {
                        tile: match b[r][c].tile {
                            Some(t) => Some(spec_advance(t, delta)),
                            None => None,
                        },
                    },
            ),
    )
}

/// The whole board after `n` ticks of motion.
pub open spec fn spec_advance_board_n(b: Seq<Seq<Cell>>, delta: int, n: int) -> Seq<Seq<Cell>>
    decreases n,
{
    if n <= 0 {
        b
    } else {
        spec_advance_board(spec_advance_board_n(b, delta, n - 1), delta)
    }
}

/// One tick of motion preserves the arrangement of tile kinds.
proof fn lemma_advance_board_kinds(b: Seq<Seq<Cell>>, delta: int)
    ensures
        spec_advance_board(b, delta).len() == b.len(),
        forall|r: int|
            0 <= r < b.len() ==> (#[trigger] spec_advance_board(b, delta)[r]).len() == b[r].len(),
        forall|r: int, c: int| #[trigger]
            kind_at(spec_advance_board(b, delta), r, c) == kind_at(b, r, c),
{
    assert forall|r: int, c: int| #[trigger]
        kind_at(spec_advance_board(b, delta), r, c) == kind_at(b, r, c) by {
        if 0 <= r < b.len() && 0 <= c < b[r].len() {
            match b[r][c].tile {
                Some(t) => {
                    assert(spec_advance_board(b, delta)[r][c].tile == Some(
                        spec_advance(t, delta),
                    ));
                    assert(spec_advance(t, delta).form == t.form);
                },
                None => {
                    assert(spec_advance_board(b, delta)[r][c].tile is None);
                },
            }
        }
    }
}

/// Motion never changes which cells are occupied or which kind sits where:
/// any number of ticks leaves the arrangement of tile kinds exactly as it
/// was.
pub proof fn lemma_advance_board_n_kinds(b: Seq<Seq<Cell>>, delta: int, n: int)
    ensures
        spec_advance_board_n(b, delta, n).len() == b.len(),
        forall|r: int|
            0 <= r < b.len() ==> (#[trigger] spec_advance_board_n(b, delta, n)[r]).len()
                == b[r].len(),
        forall|r: int, c: int| #[trigger]
            kind_at(spec_advance_board_n(b, delta, n), r, c) == kind_at(b, r, c),
    decreases n,
{
    if n > 0 {
        lemma_advance_board_n_kinds(b, delta, n - 1);
        lemma_advance_board_kinds(spec_advance_board_n(b, delta, n - 1), delta);
    }
}

/// Ticks compose on the right as well: `n` ticks are `n - 1` ticks followed
/// by one more.
proof fn lemma_advance_n_unfold_right(t: Tile, delta: int, n: int)
    requires
        n > 0,
    ensures
        advance_n(t, delta, n) == spec_advance(advance_n(t, delta, n - 1), delta),
    decreases n,
{
    if n == 1 {
        assert(advance_n(t, delta, 1) == advance_n(spec_advance(t, delta), delta, 0));
        assert(advance_n(t, delta, 0) == t);
    } else {
        let t1 = spec_advance(t, delta);
        lemma_advance_n_unfold_right(t1, delta, n - 1);
        assert(advance_n(t, delta, n) == advance_n(t1, delta, n - 1));
        assert(advance_n(t, delta, n - 1) == advance_n(t1, delta, n - 2));
    }
}

/// After `n` ticks, each cell holds its original tile advanced `n` times.
proof fn lemma_advance_board_n_cells(b: Seq<Seq<Cell>>, delta: int, n: int)
    requires
        n >= 0,
    ensures
        spec_advance_board_n(b, delta, n).len() == b.len(),
        forall|r: int|
            0 <= r < b.len() ==> (#[trigger] spec_advance_board_n(b, delta, n)[r]).len()
                == b[r].len(),
        forall|r: int, c: int|
            0 <= r < b.len() && 0 <= c < b[r].len() ==> #[trigger] spec_advance_board_n(
                b,
                delta,
                n,
            )[r][c].tile == match b[r][c].tile {
                Some(t) => Some(advance_n(t, delta, n)),
                None => None::<Tile>,
            },
    decreases n,
{
    if n > 0 {
        lemma_advance_board_n_cells(b, delta, n - 1);
        assert forall|r: int, c: int|
            0 <= r < b.len() && 0 <= c < b[r].len() implies #[trigger] spec_advance_board_n(
            b,
            delta,
            n,
        )[r][c].tile == match b[r][c].tile {
            Some(t) => Some(advance_n(t, delta, n)),
            None => None::<Tile>,
        } by {
            match b[r][c].tile {
                Some(t) => {
                    lemma_advance_n_unfold_right(t, delta, n);
                    assert(spec_advance_board_n(b, delta, n)[r][c].tile == Some(
                        spec_advance(advance_n(t, delta, n - 1), delta),
                    ));
                },
                None => {},
            }
        }
    }
}

/// A well-formed tile never has farther to travel than the span of the
/// stored grid.
proof fn lemma_rem_dist_bound(t: Tile, r: int, c: int)
    requires
        tile_wf(t, r, c),
    ensures
        rem_dist(t) <= (BOARD_HEIGHT - 1) * CELL_PITCH,
{
    match t.state {
        TileState::Idle => {},
        TileState::Moving { from, to } => {
            assert(col_x(0) == -385 && col_x(BOARD_WIDTH - 1) == 308);
            assert(row_y(0) == -385 && row_y(BOARD_HEIGHT - 1) == 1078);
            assert(col_x(0) <= col_x(from.1 as int) <= col_x(BOARD_WIDTH - 1));
            assert(col_x(0) <= col_x(to.1 as int) <= col_x(BOARD_WIDTH - 1));
            assert(row_y(0) <= row_y(from.0 as int) <= row_y(BOARD_HEIGHT - 1));
            assert(row_y(0) <= row_y(to.0 as int) <= row_y(BOARD_HEIGHT - 1));
        },
    }
}

/// Law: motion always completes. After enough ticks for the longest
/// possible glide (the grid's span over the per-tick travel, rounded up),
/// every tile on the board is idle and rests exactly at the centre of its
/// cell.
pub proof fn lemma_all_motion_settles(b: Seq<Seq<Cell>>, delta: int, n: int)
    requires
        well_sized(b),
        board_tiles_wf(b),
        0 < delta,
        n >= ((BOARD_HEIGHT - 1) * CELL_PITCH + delta - 1) / delta,
    ensures
        forall|r: int, c: int|
            0 <= r < BOARD_HEIGHT && 0 <= c < BOARD_WIDTH ==> match (
            #[trigger] spec_advance_board_n(b, delta, n)[r][c].tile) {
                Some(t) => t.state is Idle && t.pos == cell_point(
                    BoardIndex(r as usize, c as usize),
                ),
                None => true,
            },
{
    lemma_advance_board_n_cells(b, delta, n);
    assert forall|r: int, c: int|
        0 <= r < BOARD_HEIGHT && 0 <= c < BOARD_WIDTH implies match (
        #[trigger] spec_advance_board_n(b, delta, n)[r][c].tile) {
            Some(t) => t.state is Idle && t.pos == cell_point(BoardIndex(r as usize, c as usize)),
            None => true,
        } by {
        match b[r][c].tile {
            Some(t) => {
                assert(tile_wf(t, r, c));
                lemma_rem_dist_bound(t, r, c);
                let d = rem_dist(t);
                let span = (BOARD_HEIGHT - 1) * CELL_PITCH;
                assert((d + delta - 1) / delta <= (span + delta - 1) / delta)
                    by (nonlinear_arith)
                    requires
                        0 <= d <= span,
                        delta >= 1,
                ;
                lemma_motion_settles(t, BoardIndex(r as usize, c as usize), delta, n);
            },
            None => {},
        }
    }
}

/// Advances every moving tile on the board by one tick of travel `delta`.
/// Only positions and motion states change: kinds, handles and the
/// arrangement of tiles over cells are untouched.
pub fn move_tiles(board: &mut Board, delta: i64)
    requires
        well_sized(old(board)@),
        board_tiles_wf(old(board)@),
        0 < delta <= MAX_TICK_STEP,
    ensures
        well_sized(final(board)@),
        board_tiles_wf(final(board)@),
        final(board)@ == spec_advance_board(old(board)@, delta as int),
        final(board)@.len() == old(board)@.len(),
        forall|r: int| 0 <= r < final(board)@.len()
            ==> (#[trigger] final(board)@[r]).len() == old(board)@[r].len(),
        forall|r: int, c: int|
            0 <= r < final(board)@.len() && 0 <= c < final(board)@[r].len()
                ==> #[trigger] final(board)@[r][c].tile == match old(board)@[r][c].tile {
                    Some(t) => Some(spec_advance(t, delta as int)),
                    None => None::<Tile>,
                },
{
    let ghost b0 = board@;
    let mut r: usize = 0;
    while r < BOARD_HEIGHT
        invariant
            well_sized(b0),
            board_tiles_wf(b0),
            0 < delta <= MAX_TICK_STEP,
            r <= BOARD_HEIGHT,
            well_sized(board@),
            forall|i: int, j: int|
                0 <= i < BOARD_HEIGHT && 0 <= j < BOARD_WIDTH && i >= r
                    ==> #[trigger] board@[i][j] == b0[i][j],
            forall|i: int, j: int|
                0 <= i < r && 0 <= j < BOARD_WIDTH
                    ==> #[trigger] board@[i][j].tile == match b0[i][j].tile {
                        Some(t) => Some(spec_advance(t, delta as int)),
                        None => None::<Tile>,
                    },
        decreases BOARD_HEIGHT - r,
    {
        let mut c: usize = 0;
        while c < BOARD_WIDTH
            invariant
                well_sized(b0),
                board_tiles_wf(b0),
                0 < delta <= MAX_TICK_STEP,
                r < BOARD_HEIGHT,
                c <= BOARD_WIDTH,
                well_sized(board@),
                forall|i: int, j: int|
                    0 <= i < BOARD_HEIGHT && 0 <= j < BOARD_WIDTH && (i > r || (i == r && j >= c))
                        ==> #[trigger] board@[i][j] == b0[i][j],
                forall|i: int, j: int|
                    0 <= i < BOARD_HEIGHT && 0 <= j < BOARD_WIDTH && (i < r || (i == r && j < c))
                        ==> #[trigger] board@[i][j].tile == match b0[i][j].tile {
                            Some(t) => Some(spec_advance(t, delta as int)),
                            None => None::<Tile>,
                        },
            decreases BOARD_WIDTH - c,
        {
            let idx = BoardIndex(r, c);
            let cell = *board.get(idx).unwrap();
            if let Some(tile) = cell.tile {
                proof {
                    assert(board@[r as int][c as int] == b0[r as int][c as int]);
                    assert(tile_wf(tile, r as int, c as int));
                    assert(col_x(0) == -385 && col_x(BOARD_WIDTH - 1) == 308);
                    assert(row_y(0) == -385 && row_y(BOARD_HEIGHT - 1) == 1078);
                    if tile.state is Moving {
                        assert(-385 <= tile.pos.x <= 1078 && -385 <= tile.pos.y <= 1078);
                    }
                }
                if let TileState::Moving { from, to } = tile.state {
                    let target = board.get_cell_coord(to);
                    let dcol = (to.1 as i64) - (from.1 as i64);
                    let drow = (to.0 as i64) - (from.0 as i64);
                    let dx: i64 = if dcol > 0 {
                        1
                    } else if dcol < 0 {
                        -1
                    } else {
                        0
                    };
                    let dy: i64 = if drow > 0 {
                        1
                    } else if drow < 0 {
                        -1
                    } else {
                        0
                    };
                    let nx = tile.pos.x + dx * delta;
                    let ny = tile.pos.y + dy * delta;
                    let ax = if target.x >= nx {
                        target.x - nx
                    } else {
                        nx - target.x
                    };
                    let ay = if target.y >= ny {
                        target.y - ny
                    } else {
                        ny - target.y
                    };
                    let new_tile = if ax <= delta && ay <= delta {
                        Tile { pos: target, state: TileState::Idle, ..tile }
                    } else {
                        Tile { pos: Point { x: nx, y: ny }, ..tile }
                    };
                    proof {
                        assert(new_tile == spec_advance(tile, delta as int));
                    }
                    board.set_cell(idx, Cell { tile: Some(new_tile) });
                }
            }
            c = c + 1;
        }
        r = r + 1;
    }
    proof {
        assert forall|r: int, c: int|
            0 <= r < final(board)@.len() && 0 <= c < final(board)@[r].len()
                && final(board)@[r][c].tile is Some
            implies tile_wf(final(board)@[r][c].tile->Some_0, r, c) by {
            if b0[r][c].tile is Some {
                lemma_advance_wf(b0[r][c].tile->Some_0, r, c, delta as int);
            }
        }
        assert forall|r: int| 0 <= r < final(board)@.len() implies #[trigger] final(board)@[r]
            =~= spec_advance_board(b0, delta as int)[r] by {
            assert(final(board)@[r].len() == b0[r].len());
        }
        assert(final(board)@ =~~= spec_advance_board(b0, delta as int));
    }
}

} // verus!
