//! The coordinating driver: owns the whole simulation state and threads it
//! through the fixed tick pipeline — advance motion, validate a pending
//! swap, scan for matches, resolve, refill.

use vstd::prelude::*;

use crate::board::{
    cell_point, cell_tile, idx_in_bounds, well_sized, Board, BoardIndex, Cell, Tile, TileState,
    BOARD_HEIGHT, BOARD_VISIBLE_HEIGHT, BOARD_WIDTH,
};
use crate::events::GameEvent;
use crate::motion::{board_tiles_wf, move_tiles, spec_advance_board, tile_wf, MAX_TICK_STEP};
use crate::resolve::{
    compact_board, despawn_tiles, lemma_resolution_fills_visible, random_form, refilled,
    spawn_tiles, spec_drain,
};
use crate::scan::{check_board_for_matching, spec_scan, MAX_SCAN_GAIN};
use crate::selection::{
    click_cell, handle_click, handle_selection, manhattan, selection_outcome, spec_click_col,
    spec_click_inside, spec_click_row, Selection,
};
use crate::validate::{check_swapped_for_matching, spec_validate};

verus! {

/// Every cell of the board holds a tile.
pub open spec fn board_full(b: Seq<Seq<Cell>>) -> bool {
    forall|r: int, c: int|
        0 <= r < BOARD_HEIGHT && 0 <= c < BOARD_WIDTH ==> (#[trigger] cell_tile(b, r, c)) is Some
}

/// The whole simulation state, threaded through the tick pipeline.
pub struct GameState {
    pub board: Board,
    pub selection: Selection,
    pub tiles_to_despawn: Vec<BoardIndex>,
    pub pending_swap: Option<(BoardIndex, BoardIndex)>,
    pub score: u64,
    pub next_entity: u64,
}

/// Well-formedness of the simulation state: the grid has its fixed size,
/// every tile's motion is consistent with the cell that holds it, and every
/// recorded index addresses an existing cell (despawn entries lie in the
/// visible area; a pending swap joins two adjacent cells).
pub open spec fn state_wf(g: GameState) -> bool {
    &&& well_sized(g.board@)
    &&& board_tiles_wf(g.board@)
    &&& forall|i: int|
        0 <= i < g.selection.to_unselect@.len() ==> idx_in_bounds(
            g.board@,
            #[trigger] g.selection.to_unselect@[i],
        )
    &&& (g.selection.selected is Some ==> idx_in_bounds(g.board@, g.selection.selected->0))
    &&& (g.selection.last_selected is Some ==> idx_in_bounds(
        g.board@,
        g.selection.last_selected->0,
    ))
    &&& (match g.pending_swap {
        Some((a, b)) => idx_in_bounds(g.board@, a) && idx_in_bounds(g.board@, b) && manhattan(a, b)
            == 1,
        None => true,
    })
    &&& forall|i: int|
        0 <= i < g.tiles_to_despawn@.len() ==> (#[trigger] g.tiles_to_despawn@[i]).0
            < BOARD_VISIBLE_HEIGHT && (g.tiles_to_despawn@[i]).1 < BOARD_WIDTH
}

/// Whether the resolution phase has work to do this tick.
pub fn run_if_has_tiles_to_despawn(tiles_to_despawn: &Vec<BoardIndex>) -> (r: bool)
    ensures
        r == (tiles_to_despawn@.len() != 0),
{
    tiles_to_despawn.len() != 0
}

/// Builds the starting state: a full grid of uniformly random tiles, each
/// resting at its cell's centre, and emits one creation notification per
/// tile.
#[verifier::loop_isolation(false)]
pub fn setup(out: &mut Vec<GameEvent>) -> (g: GameState)
    ensures
        state_wf(g),
        board_full(g.board@),
        forall|r: int, c: int|
            0 <= r < BOARD_HEIGHT && 0 <= c < BOARD_WIDTH ==> {
                let t = (#[trigger] cell_tile(g.board@, r, c))->Some_0;
                &&& t.state is Idle
                &&& t.pos == cell_point(BoardIndex(r as usize, c as usize))
            },
        g.score == 0,
        g.selection.selected is None,
        g.selection.last_selected is None,
        g.selection.to_unselect@.len() == 0,
        g.pending_swap is None,
        g.tiles_to_despawn@.len() == 0,
        final(out)@.len() >= old(out)@.len(),
        forall|k: int|
            old(out)@.len() <= k < final(out)@.len() ==> (#[trigger] final(out)@[k])
                is TileCreated,
        forall|k: int| 0 <= k < old(out)@.len() ==> #[trigger] final(out)@[k] == old(out)@[k],
{
    let mut board = Board::new();
    let mut next_entity: u64 = 1;
    let mut i: usize = 0;
    while i < BOARD_HEIGHT
        invariant
            i <= BOARD_HEIGHT,
            board@.len() == i,
            forall|r: int| 0 <= r < i ==> (#[trigger] board@[r]).len() == BOARD_WIDTH,
            forall|r: int, c: int|
                0 <= r < i && 0 <= c < BOARD_WIDTH ==> (#[trigger] board@[r][c].tile) is Some
                    && board@[r][c].tile->Some_0.state is Idle && tile_wf(
                    board@[r][c].tile->Some_0,
                    r,
                    c,
                ),
            1 <= next_entity,
            next_entity as int <= 1 + 2 * i * BOARD_WIDTH,
            out@.len() >= old(out)@.len(),
            forall|k: int|
                old(out)@.len() <= k < out@.len() ==> (#[trigger] out@[k]) is TileCreated,
            forall|k: int| 0 <= k < old(out)@.len() ==> #[trigger] out@[k] == old(out)@[k],
        decreases BOARD_HEIGHT - i,
    {
        let mut row: Vec<Cell> = Vec::new();
        let mut j: usize = 0;
        while j < BOARD_WIDTH
            invariant
                i < BOARD_HEIGHT,
                j <= BOARD_WIDTH,
                row@.len() == j,
                forall|c: int|
                    0 <= c < j ==> (#[trigger] row@[c].tile) is Some
                        && row@[c].tile->Some_0.state is Idle && tile_wf(
                        row@[c].tile->Some_0,
                        i as int,
                        c,
                    ),
                1 <= next_entity,
                next_entity as int <= 1 + 2 * i * BOARD_WIDTH + 2 * j,
                out@.len() >= old(out)@.len(),
                forall|k: int|
                    old(out)@.len() <= k < out@.len() ==> (#[trigger] out@[k]) is TileCreated,
                forall|k: int| 0 <= k < old(out)@.len() ==> #[trigger] out@[k] == old(out)@[k],
            decreases BOARD_WIDTH - j,
        {
            let form = random_form();
            let pos = board.get_cell_coord(BoardIndex(i, j));
            let select_area_entity = next_entity;
            next_entity = next_entity + 1;
            let entity = next_entity;
            next_entity = next_entity + 1;
            let tile = Tile { form, entity, select_area_entity, pos, state: TileState::Idle };
            proof {
                assert(tile_wf(tile, i as int, j as int));
            }
            row.push(Cell { tile: Some(tile) });
            out.push(GameEvent::TileCreated { entity, select_area_entity, form, pos });
            j = j + 1;
        }
        board.push_row(row);
        i = i + 1;
    }
    GameState {
        board,
        selection: Selection::new(),
        tiles_to_despawn: Vec::new(),
        pending_swap: None,
        score: 0,
        next_entity,
    }
}

impl GameState {
    /// Feeds one pointer click, given in half world units of board-local
    /// space, through the selection and swap controller. At most one click
    /// is handled per tick; a click outside the visible board is rejected
    /// without any effect.
    pub fn pointer_clicked(&mut self, x_half: i64, y_half: i64, out: &mut Vec<GameEvent>)
        requires
            state_wf(*old(self)),
        ensures
            state_wf(*final(self)),
            final(self).score == old(self).score,
            final(self).tiles_to_despawn@ == old(self).tiles_to_despawn@,
            final(self).next_entity == old(self).next_entity,
            !spec_click_inside(x_half as int, y_half as int) ==> *final(self) == *old(self)
                && final(out)@ == old(out)@,
            spec_click_inside(x_half as int, y_half as int) ==> selection_outcome(
                old(self).board@,
                match old(self).selection.selected {
                    Some(prev) => old(self).selection.to_unselect@.push(prev),
                    None => old(self).selection.to_unselect@,
                },
                Some(
                    BoardIndex(
                        spec_click_row(y_half as int) as usize,
                        spec_click_col(x_half as int) as usize,
                    ),
                ),
                old(self).selection.selected,
                old(self).pending_swap,
                old(out)@,
                final(self).board@,
                final(self).selection,
                final(self).pending_swap,
                final(out)@,
            ),
    {
        if click_cell(x_half, y_half).is_none() {
            return;
        }
        handle_click(&mut self.selection, x_half, y_half);
        handle_selection(&mut self.board, &mut self.selection, &mut self.pending_swap, out);
        proof {
            assert(state_wf(*self));
        }
    }

    /// One simulation tick, phases in fixed order: advance tile motion by
    /// `delta`; once a tentative swap has settled, validate it and revert it
    /// if it made no match; scan the board for runs, scoring them; if any
    /// despawns are pending, despawn and compact; refill the reservoir.
    /// A fully occupied board is fully occupied again when the tick ends.
    #[verifier::rlimit(100)]
    pub fn tick(&mut self, delta: i64, out: &mut Vec<GameEvent>)
        requires
            state_wf(*old(self)),
            0 < delta <= MAX_TICK_STEP,
            old(self).score <= u64::MAX - MAX_SCAN_GAIN,
            old(self).next_entity <= u64::MAX - 200,
        ensures
            state_wf(*final(self)),
            final(self).score >= old(self).score,
            final(self).tiles_to_despawn@.len() == 0,
            board_full(old(self).board@) ==> board_full(final(self).board@),
            ({
                let moved = spec_advance_board(old(self).board@, delta as int);
                let validated = spec_validate(moved, old(self).pending_swap);
                let pending_all = old(self).tiles_to_despawn@ + spec_scan(validated.0).0;
                let resolved = if pending_all.len() == 0 {
                    validated.0
                } else {
                    compact_board(spec_drain(validated.0, pending_all).0)
                };
                &&& final(self).pending_swap == validated.1
                &&& final(self).score == old(self).score + spec_scan(validated.0).1
                &&& forall|r: int, c: int|
                    0 <= r < BOARD_VISIBLE_HEIGHT && 0 <= c < BOARD_WIDTH ==> #[trigger] cell_tile(
                        final(self).board@,
                        r,
                        c,
                    ) == cell_tile(resolved, r, c)
                &&& forall|r: int, c: int|
                    BOARD_VISIBLE_HEIGHT <= r < BOARD_HEIGHT && 0 <= c < BOARD_WIDTH
                        ==> #[trigger] refilled(resolved, final(self).board@, r, c)
            }),
    {
        let ghost full0 = board_full(old(self).board@);
        move_tiles(&mut self.board, delta);
        let ghost b_m = self.board@;
        proof {
            if full0 {
                assert forall|r: int, c: int|
                    0 <= r < BOARD_HEIGHT && 0 <= c < BOARD_WIDTH
                    implies (#[trigger] cell_tile(b_m, r, c)) is Some by {
                    assert(cell_tile(old(self).board@, r, c) is Some);
                    assert(b_m[r][c].tile == match old(self).board@[r][c].tile {
                        Some(t) => Some(crate::motion::spec_advance(t, delta as int)),
                        None => None::<Tile>,
                    });
                }
            }
        }
        check_swapped_for_matching(&mut self.board, &mut self.pending_swap, out);
        let ghost b_v = self.board@;
        proof {
            if full0 {
                assert(board_full(b_v)) by {
                    if b_v != b_m {
                        match old(self).pending_swap {
                            Some((a, bb)) => {
                                assert forall|r: int, c: int|
                                    0 <= r < BOARD_HEIGHT && 0 <= c < BOARD_WIDTH
                                    implies (#[trigger] cell_tile(b_v, r, c)) is Some by {
                                    assert(cell_tile(b_m, r, c) is Some);
                                }
                            },
                            None => {},
                        }
                    }
                }
            }
        }
        let score_before = self.score;
        check_board_for_matching(&mut self.score, &self.board, &mut self.tiles_to_despawn);
        if self.score != score_before {
            out.push(GameEvent::ScoreChanged { score: self.score });
        }
        proof {
            assert forall|i: int|
                0 <= i < self.tiles_to_despawn@.len() implies (#[trigger] self.tiles_to_despawn@[
                i]).0 < BOARD_VISIBLE_HEIGHT && (self.tiles_to_despawn@[i]).1 < BOARD_WIDTH by {
                if i >= old(self).tiles_to_despawn@.len() {
                    let k = i - old(self).tiles_to_despawn@.len();
                    assert(self.tiles_to_despawn@[i] == spec_scan(b_v).0[k]);
                }
            }
        }
        let ghost pending = self.tiles_to_despawn@;
        if run_if_has_tiles_to_despawn(&self.tiles_to_despawn) {
            despawn_tiles(&mut self.board, &mut self.tiles_to_despawn, out);
            proof {
                if full0 {
                    lemma_resolution_fills_visible(b_v, pending, self.board@);
                }
            }
        }
        let ghost b_d = self.board@;
        proof {
            let moved = spec_advance_board(old(self).board@, delta as int);
            let validated = spec_validate(moved, old(self).pending_swap);
            let pending_all = old(self).tiles_to_despawn@ + spec_scan(validated.0).0;
            assert(b_v == validated.0);
            assert(pending =~= pending_all);
            if pending_all.len() == 0 {
                assert(b_d == validated.0);
            } else {
                assert(b_d == compact_board(spec_drain(validated.0, pending_all).0));
            }
        }
        let ghost visible_full = forall|r: int, c: int|
            0 <= r < BOARD_VISIBLE_HEIGHT && 0 <= c < BOARD_WIDTH ==> (#[trigger] cell_tile(
                b_d,
                r,
                c,
            )) is Some;
        spawn_tiles(&mut self.board, &mut self.next_entity, out);
        proof {
            if full0 {
                assert(visible_full);
                assert forall|r: int, c: int|
                    0 <= r < BOARD_HEIGHT && 0 <= c < BOARD_WIDTH
                    implies (#[trigger] cell_tile(self.board@, r, c)) is Some by {
                    if r < BOARD_VISIBLE_HEIGHT {
                        assert(cell_tile(self.board@, r, c) == cell_tile(b_d, r, c));
                        assert(cell_tile(b_d, r, c) is Some);
                    } else {
                        assert(refilled(b_d, self.board@, r, c));
                    }
                }
            }
            assert(state_wf(*self));
        }
    }
}

} // verus!
