//! The selection and swap controller: converts a board-index pick into a
//! select / deselect / swap decision and starts the swap animation.

use vstd::prelude::*;

use crate::board::{
    Board, BoardIndex, Cell, Tile, TileState, cell_point, col_x, idx_in_bounds, row_y, well_sized,
    BOARD_ORIGIN_X, BOARD_ORIGIN_Y, BOARD_TILE_SIZE, BOARD_VISIBLE_HEIGHT, BOARD_WIDTH,
    CELL_PITCH,
};
use crate::events::GameEvent;
use crate::motion::{board_tiles_wf, tile_wf};

verus! {

/// The selection state: at most one currently selected index, the index
/// selected before it, and indices whose highlight is still to be cleared.
pub struct Selection {
    pub to_unselect: Vec<BoardIndex>,
    pub last_selected: Option<BoardIndex>,
    pub selected: Option<BoardIndex>,
}

impl Selection {
    pub fn new() -> (s: Selection)
        ensures
            s.to_unselect@.len() == 0,
            s.last_selected is None,
            s.selected is None,
    {
        Selection { to_unselect: Vec::new(), last_selected: None, selected: None }
    }
}

/// Column picked by a click at world x-coordinate `x_half`, measured in half
/// world units so that the half-pitch cell border stays an integer.
pub open spec fn spec_click_col(x_half: int) -> int {
    (x_half - (2 * BOARD_ORIGIN_X - CELL_PITCH)) / (2 * CELL_PITCH)
}

/// Row picked by a click at world y-coordinate `y_half`, in half world units.
pub open spec fn spec_click_row(y_half: int) -> int {
    (y_half - (2 * BOARD_ORIGIN_Y - CELL_PITCH)) / (2 * CELL_PITCH)
}

/// The click lies strictly inside the visible board's outer border.
pub open spec fn spec_click_inside(x_half: int, y_half: int) -> bool {
    &&& 2 * BOARD_ORIGIN_X - CELL_PITCH < x_half
    &&& x_half < 2 * col_x(BOARD_WIDTH - 1) + CELL_PITCH
    &&& 2 * BOARD_ORIGIN_Y - CELL_PITCH < y_half
    &&& y_half < 2 * row_y(BOARD_VISIBLE_HEIGHT - 1) + CELL_PITCH
}

/// Maps a pointer click, given in half world units of board-local space, to
/// the visible cell it falls in; clicks outside the visible area are
/// rejected.
pub fn click_cell(x_half: i64, y_half: i64) -> (r: Option<BoardIndex>)
    ensures
        match r {
            Some(idx) => {
                &&& spec_click_inside(x_half as int, y_half as int)
                &&& idx.0 == spec_click_row(y_half as int)
                &&& idx.1 == spec_click_col(x_half as int)
                &&& idx.0 < BOARD_VISIBLE_HEIGHT
                &&& idx.1 < BOARD_WIDTH
            },
            None => !spec_click_inside(x_half as int, y_half as int),
        },
{
    let left: i64 = 2 * BOARD_ORIGIN_X - CELL_PITCH;
    let bottom: i64 = 2 * BOARD_ORIGIN_Y - CELL_PITCH;
    let right: i64 = left + 2 * CELL_PITCH * (BOARD_WIDTH as i64);
    let top: i64 = bottom + 2 * CELL_PITCH * (BOARD_VISIBLE_HEIGHT as i64);
    proof {
        assert(right == 2 * col_x(BOARD_WIDTH - 1) + CELL_PITCH);
        assert(top == 2 * row_y(BOARD_VISIBLE_HEIGHT - 1) + CELL_PITCH);
    }
    if x_half > left && x_half < right && y_half > bottom && y_half < top {
        let col = ((x_half - left) / (2 * CELL_PITCH)) as usize;
        let row = ((y_half - bottom) / (2 * CELL_PITCH)) as usize;
        proof {
            assert(0 <= (x_half - left) as int / (2 * CELL_PITCH) < BOARD_WIDTH)
                by (nonlinear_arith)
                requires
                    0 < (x_half - left) as int,
                    ((x_half - left) as int) < 2 * CELL_PITCH * BOARD_WIDTH,
                    CELL_PITCH == 77,
                    BOARD_WIDTH == 10,
            ;
            assert(0 <= (y_half - bottom) as int / (2 * CELL_PITCH) < BOARD_VISIBLE_HEIGHT)
                by (nonlinear_arith)
                requires
                    0 < (y_half - bottom) as int,
                    ((y_half - bottom) as int) < 2 * CELL_PITCH * BOARD_VISIBLE_HEIGHT,
                    CELL_PITCH == 77,
                    BOARD_VISIBLE_HEIGHT == 10,
            ;
        }
        Some(BoardIndex(row, col))
    } else {
        None
    }
}

/// Records a validated click: the previous selection is queued for a
/// highlight update and the clicked cell becomes the current selection.
/// Clicks outside the visible board leave the selection untouched.
pub fn handle_click(selection: &mut Selection, x_half: i64, y_half: i64)
    ensures
        spec_click_inside(x_half as int, y_half as int) ==> {
            &&& final(selection).selected == Some(
                BoardIndex(
                    spec_click_row(y_half as int) as usize,
                    spec_click_col(x_half as int) as usize,
                ),
            )
            &&& (final(selection).selected->0).0 < BOARD_VISIBLE_HEIGHT
            &&& (final(selection).selected->0).1 < BOARD_WIDTH
            &&& final(selection).last_selected == old(selection).selected
            &&& final(selection).to_unselect@ == match old(selection).selected {
                Some(idx) => old(selection).to_unselect@.push(idx),
                None => old(selection).to_unselect@,
            }
        },
        !spec_click_inside(x_half as int, y_half as int) ==> *final(selection) == *old(selection),
{
    if let Some(idx) = click_cell(x_half, y_half) {
        let last = selection.selected;
        if let Some(prev) = last {
            selection.to_unselect.push(prev);
        }
        selection.last_selected = last;
        selection.selected = Some(idx);
    }
}

/// The highlight notification for one tile.
pub open spec fn highlight_event(t: Tile, on: bool) -> GameEvent {
    GameEvent::SelectionHighlight {
        entity: t.entity,
        select_area_entity: t.select_area_entity,
        visible: on,
        scale: if on {
            (CELL_PITCH + 10) as i64
        } else {
            BOARD_TILE_SIZE
        },
    }
}

/// The highlight notifications produced for the cell at `idx`: one event if
/// it holds a tile, none otherwise.
pub open spec fn cell_highlight_events(b: Seq<Seq<Cell>>, idx: BoardIndex, on: bool) -> Seq<
    GameEvent,
> {
    if idx_in_bounds(b, idx) && b[idx.0 as int][idx.1 as int].tile is Some {
        seq![highlight_event(b[idx.0 as int][idx.1 as int].tile->Some_0, on)]
    } else {
        Seq::empty()
    }
}

/// The unhighlight notifications produced by draining a queue of indices,
/// most recently queued first.
pub open spec fn drain_unhighlight(b: Seq<Seq<Cell>>, s: Seq<BoardIndex>) -> Seq<GameEvent>
    decreases s.len(),
{
    if s.len() == 0 {
        Seq::empty()
    } else {
        cell_highlight_events(b, s.last(), false) + drain_unhighlight(b, s.drop_last())
    }
}

/// Shows or hides the selection highlight of the tile in `cell`.
pub fn set_selected(cell: &Cell, on: bool, out: &mut Vec<GameEvent>)
    ensures
        final(out)@ == old(out)@ + match cell.tile {
            Some(t) => seq![highlight_event(t, on)],
            None => Seq::<GameEvent>::empty(),
        },
{
    let (visible, scale) = if on {
        (true, cell.size() + 10)
    } else {
        (false, cell.tile_size())
    };
    if let Some(tile) = &cell.tile {
        out.push(
            GameEvent::SelectionHighlight {
                entity: tile.entity,
                select_area_entity: tile.select_area_entity,
                visible,
                scale,
            },
        );
        proof {
            assert(final(out)@ =~= old(out)@ + seq![highlight_event(cell.tile->Some_0, on)]);
        }
    } else {
        proof {
            assert(final(out)@ =~= old(out)@ + Seq::<GameEvent>::empty());
        }
    }
}

/// Manhattan distance between two board indices.
pub open spec fn manhattan(a: BoardIndex, b: BoardIndex) -> int {
    let dr = if a.0 >= b.0 {
        a.0 - b.0
    } else {
        b.0 - a.0
    };
    let dc = if a.1 >= b.1 {
        a.1 - b.1
    } else {
        b.1 - a.1
    };
    dr + dc
}

/// The cell at `idx` holds a tile that is resting and may take part in a
/// selection or swap.
pub open spec fn cell_ready(b: Seq<Seq<Cell>>, idx: BoardIndex) -> bool {
    &&& idx_in_bounds(b, idx)
    &&& b[idx.0 as int][idx.1 as int].tile is Some
    &&& b[idx.0 as int][idx.1 as int].tile->Some_0.state is Idle
}

/// The board after the tiles of `i1` and `i2` were exchanged and both were
/// set gliding toward their new cells.
pub open spec fn swap_result(b: Seq<Seq<Cell>>, i1: BoardIndex, i2: BoardIndex) -> Seq<Seq<Cell>> {
    let t1 = b[i1.0 as int][i1.1 as int].tile->Some_0;
    let t2 = b[i2.0 as int][i2.1 as int].tile->Some_0;
    let t1m = Tile { state: TileState::Moving { from: i1, to: i2 }, ..t1 };
    let t2m = Tile { state: TileState::Moving { from: i2, to: i1 }, ..t2 };
    let b1 = b.update(i1.0 as int, b[i1.0 as int].update(i1.1 as int, Cell { tile: Some(t2m) }));
    b1.update(i2.0 as int, b1[i2.0 as int].update(i2.1 as int, Cell { tile: Some(t1m) }))
}

/// The move notifications emitted by a swap of the tiles at `i1` and `i2`.
pub open spec fn swap_events(b: Seq<Seq<Cell>>, i1: BoardIndex, i2: BoardIndex) -> Seq<GameEvent> {
    let t1 = b[i1.0 as int][i1.1 as int].tile->Some_0;
    let t2 = b[i2.0 as int][i2.1 as int].tile->Some_0;
    seq![
        GameEvent::TileMoveTarget { entity: t1.entity, target: cell_point(i2) },
        GameEvent::TileMoveTarget { entity: t2.entity, target: cell_point(i1) },
    ]
}

/// Exchanges the tiles of two orthogonally adjacent cells in the data model
/// and starts both tiles gliding toward each other's cell. Does nothing
/// unless both cells hold a resting tile.
pub fn swap_tiles(
    board: &mut Board,
    idx1: BoardIndex,
    idx2: BoardIndex,
    out: &mut Vec<GameEvent>,
) -> (swapped: bool)
    requires
        well_sized(old(board)@),
        board_tiles_wf(old(board)@),
        idx_in_bounds(old(board)@, idx1),
        idx_in_bounds(old(board)@, idx2),
        manhattan(idx1, idx2) == 1,
    ensures
        well_sized(final(board)@),
        board_tiles_wf(final(board)@),
        swapped <==> (cell_ready(old(board)@, idx1) && cell_ready(old(board)@, idx2)),
        swapped ==> final(board)@ == swap_result(old(board)@, idx1, idx2) && final(out)@ == old(
            out,
        )@ + swap_events(old(board)@, idx1, idx2),
        !swapped ==> final(board)@ == old(board)@ && final(out)@ == old(out)@,
{
    let c1 = *board.get(idx1).unwrap();
    let c2 = *board.get(idx2).unwrap();
    let t1 = match c1.tile {
        Some(t) => t,
        None => {
            return false;
        },
    };
    let t2 = match c2.tile {
        Some(t) => t,
        None => {
            return false;
        },
    };
    let t1_idle = matches!(t1.state, TileState::Idle);
    let t2_idle = matches!(t2.state, TileState::Idle);
    if !t1_idle || !t2_idle {
        return false;
    }
    let t1m = Tile { state: TileState::Moving { from: idx1, to: idx2 }, ..t1 };
    let t2m = Tile { state: TileState::Moving { from: idx2, to: idx1 }, ..t2 };
    board.set_cell(idx1, Cell { tile: Some(t2m) });
    board.set_cell(idx2, Cell { tile: Some(t1m) });
    out.push(GameEvent::TileMoveTarget { entity: t1.entity, target: board.get_cell_coord(idx2) });
    out.push(GameEvent::TileMoveTarget { entity: t2.entity, target: board.get_cell_coord(idx1) });
    proof {
        assert(final(board)@ =~~= swap_result(old(board)@, idx1, idx2));
        assert(final(out)@ =~= old(out)@ + swap_events(old(board)@, idx1, idx2));
        lemma_swap_tiles_wf(old(board)@, final(board)@, idx1, idx2);
    }
    true
}

/// A swap of two adjacent resting tiles leaves every tile well formed: each
/// swapped tile starts at its origin's centre, approaching its new cell
/// along the one axis on which the cells differ.
proof fn lemma_swap_tiles_wf(b: Seq<Seq<Cell>>, b2: Seq<Seq<Cell>>, i1: BoardIndex, i2: BoardIndex)
    requires
        well_sized(b),
        board_tiles_wf(b),
        idx_in_bounds(b, i1),
        idx_in_bounds(b, i2),
        manhattan(i1, i2) == 1,
        cell_ready(b, i1),
        cell_ready(b, i2),
        b2 == swap_result(b, i1, i2),
    ensures
        board_tiles_wf(b2),
{
    let t1 = b[i1.0 as int][i1.1 as int].tile->Some_0;
    let t2 = b[i2.0 as int][i2.1 as int].tile->Some_0;
    assert forall|r: int, c: int|
        0 <= r < b2.len() && 0 <= c < b2[r].len() && b2[r][c].tile is Some
        implies tile_wf((#[trigger] b2[r][c]).tile->Some_0, r, c) by {
        if r == i2.0 as int && c == i2.1 as int {
            assert(tile_wf(t1, i1.0 as int, i1.1 as int));
        } else if r == i1.0 as int && c == i1.1 as int {
            assert(tile_wf(t2, i2.0 as int, i2.1 as int));
        } else {
            assert(b2[r][c] == b[r][c]);
        }
    }
}

/// What one run of the selection controller leaves behind, given the queued
/// highlight updates, the clicked index `sel` and the previous pick `last`:
/// the queue is drained; an invalid pick clears the selection; a first pick
/// is highlighted; re-picking the same cell deselects it; picking an
/// adjacent cell with two resting tiles swaps them and queues the pair for
/// validation; any other pick becomes a fresh selection.
pub open spec fn selection_outcome(
    b0: Seq<Seq<Cell>>,
    to_unselect0: Seq<BoardIndex>,
    sel: Option<BoardIndex>,
    last: Option<BoardIndex>,
    pending0: Option<(BoardIndex, BoardIndex)>,
    out0: Seq<GameEvent>,
    b1: Seq<Seq<Cell>>,
    sel1: Selection,
    pending1: Option<(BoardIndex, BoardIndex)>,
    out1: Seq<GameEvent>,
) -> bool {
    let drained = out0 + drain_unhighlight(b0, to_unselect0);
    let ready = sel is Some && cell_ready(b0, sel->0);
    &&& sel1.to_unselect@.len() == 0
    &&& (!ready ==> {
        &&& b1 == b0
        &&& sel1.selected is None
        &&& sel1.last_selected == last
        &&& pending1 == pending0
        &&& out1 == drained
    })
    &&& (ready && last is None ==> {
        &&& b1 == b0
        &&& sel1.selected == sel
        &&& sel1.last_selected == last
        &&& pending1 == pending0
        &&& out1 == drained + cell_highlight_events(b0, sel->0, true)
    })
    &&& (ready && last is Some && last->0 == sel->0 ==> {
        &&& b1 == b0
        &&& sel1.selected is None
        &&& sel1.last_selected is None
        &&& pending1 == pending0
        &&& out1 == drained + cell_highlight_events(b0, sel->0, false)
    })
    &&& (ready && last is Some && last->0 != sel->0 && manhattan(last->0, sel->0) == 1
        && cell_ready(b0, last->0) ==> {
        &&& b1 == swap_result(b0, last->0, sel->0)
        &&& sel1.selected is None
        &&& sel1.last_selected is None
        &&& pending1 == Some((last->0, sel->0))
        &&& out1 == drained + cell_highlight_events(b0, sel->0, false) + swap_events(
            b0,
            last->0,
            sel->0,
        )
    })
    &&& (ready && last is Some && last->0 != sel->0 && !(manhattan(last->0, sel->0) == 1
        && cell_ready(b0, last->0)) ==> {
        &&& b1 == b0
        &&& sel1.selected == sel
        &&& sel1.last_selected == last
        &&& pending1 == pending0
        &&& out1 == drained + cell_highlight_events(b0, last->0, false) + cell_highlight_events(
            b0,
            sel->0,
            true,
        )
    })
}

/// One run of the selection controller, deciding what the click recorded in
/// `selection` means: deselect, fresh selection, or a tentative swap of two
/// adjacent resting tiles (which is queued in `pending_swap` for later
/// validation).
pub fn handle_selection(
    board: &mut Board,
    selection: &mut Selection,
    pending_swap: &mut Option<(BoardIndex, BoardIndex)>,
    out: &mut Vec<GameEvent>,
)
    requires
        well_sized(old(board)@),
        board_tiles_wf(old(board)@),
        forall|i: int|
            0 <= i < old(selection).to_unselect@.len() ==> idx_in_bounds(
                old(board)@,
                #[trigger] old(selection).to_unselect@[i],
            ),
        old(selection).selected is Some ==> idx_in_bounds(old(board)@, old(selection).selected->0),
        old(selection).last_selected is Some ==> idx_in_bounds(
            old(board)@,
            old(selection).last_selected->0,
        ),
    ensures
        well_sized(final(board)@),
        board_tiles_wf(final(board)@),
        final(selection).to_unselect@.len() == 0,
        selection_outcome(
            old(board)@,
            old(selection).to_unselect@,
            old(selection).selected,
            old(selection).last_selected,
            *old(pending_swap),
            old(out)@,
            final(board)@,
            *final(selection),
            *final(pending_swap),
            final(out)@,
        ),
{
    let ghost b0 = board@;
    let ghost full = selection.to_unselect@;
    while selection.to_unselect.len() != 0
        invariant
            well_sized(board@),
            board@ == b0,
            forall|i: int|
                0 <= i < selection.to_unselect@.len() ==> idx_in_bounds(
                    b0,
                    #[trigger] selection.to_unselect@[i],
                ),
            out@ + drain_unhighlight(b0, selection.to_unselect@) == old(out)@ + drain_unhighlight(
                b0,
                full,
            ),
            selection.selected == old(selection).selected,
            selection.last_selected == old(selection).last_selected,
            *pending_swap == *old(pending_swap),
        decreases selection.to_unselect@.len(),
    {
        let ghost prev = selection.to_unselect@;
        let ghost out_before = out@;
        let idx = selection.to_unselect.pop().unwrap();
        let cell = *board.get(idx).unwrap();
        set_selected(&cell, false, out);
        proof {
            assert(idx == prev[prev.len() - 1] && idx_in_bounds(b0, prev[prev.len() - 1]));
            assert(selection.to_unselect@ =~= prev.drop_last());
            assert(out@ =~= out_before + cell_highlight_events(b0, idx, false));
            assert(drain_unhighlight(b0, prev) == cell_highlight_events(b0, idx, false)
                + drain_unhighlight(b0, prev.drop_last()));
            assert(out@ + drain_unhighlight(b0, selection.to_unselect@) =~= old(out)@
                + drain_unhighlight(b0, full));
        }
    }
    proof {
        assert(out@ + drain_unhighlight(b0, selection.to_unselect@) =~= out@);
        assert(out@ =~= old(out)@ + drain_unhighlight(b0, full));
    }

    let sel = match selection.selected {
        Some(idx) => idx,
        None => {
            return;
        },
    };
    let sel_cell = *board.get(sel).unwrap();
    let ready = match &sel_cell.tile {
        Some(t) => matches!(t.state, TileState::Idle),
        None => false,
    };
    if !ready {
        selection.selected = None;
        return;
    }
    if let Some(last) = selection.last_selected {
        if last.0 == sel.0 && last.1 == sel.1 {
            set_selected(&sel_cell, false, out);
            selection.selected = None;
            selection.last_selected = None;
            return;
        }
        let dr = if last.0 >= sel.0 {
            last.0 - sel.0
        } else {
            sel.0 - last.0
        };
        let dc = if last.1 >= sel.1 {
            last.1 - sel.1
        } else {
            sel.1 - last.1
        };
        let last_cell = *board.get(last).unwrap();
        let last_ready = match &last_cell.tile {
            Some(t) => matches!(t.state, TileState::Idle),
            None => false,
        };
        if dr + dc == 1 && last_ready {
            set_selected(&sel_cell, false, out);
            selection.selected = None;
            selection.last_selected = None;
            swap_tiles(board, last, sel, out);
            *pending_swap = Some((last, sel));
        } else {
            set_selected(&last_cell, false, out);
            set_selected(&sel_cell, true, out);
        }
    } else {
        set_selected(&sel_cell, true, out);
    }
}

} // verus!
