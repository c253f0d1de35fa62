//! The swap validator: after a tentative swap's tiles have settled, a
//! bounded window around each of the two new positions is checked for a run
//! of three or more equal-kind tiles; if neither position created one, the
//! swap is reverted.

use vstd::prelude::*;

use crate::board::{
    cell_tile, idx_in_bounds, kind_at, well_sized, Board, BoardIndex, Cell, Form, TileState,
    BOARD_VISIBLE_HEIGHT, BOARD_WIDTH,
};
use crate::events::GameEvent;
use crate::motion::{board_tiles_wf, spec_advance_board_n, lemma_advance_board_n_kinds};
use crate::selection::{cell_ready, manhattan, swap_events, swap_result, swap_tiles};

verus! {

/// Lower edge of the two-cell window around position `x`.
pub open spec fn win_lo(x: int) -> int {
    if x >= 2 {
        x - 2
    } else {
        0
    }
}

/// Upper edge of the two-cell window around position `x`, clipped to the
/// last valid index below `max_idx`.
pub open spec fn win_hi(x: int, max_idx: int) -> int {
    if x + 2 <= max_idx - 1 {
        x + 2
    } else {
        max_idx - 1
    }
}

/// The cell at `(r, c)` holds a tile of kind `f`.
pub open spec fn matches_form(b: Seq<Seq<Cell>>, r: int, c: int, f: Form) -> bool {
    match cell_tile(b, r, c) {
        Some(t) => t.form == f,
        None => false,
    }
}

/// Three consecutive cells of kind `f` lie in `idx`'s column, inside the
/// window around `idx`'s row (clipped to the visible area).
pub open spec fn col_run3(b: Seq<Seq<Cell>>, idx: BoardIndex, f: Form) -> bool {
    exists|s: int|
        {
            &&& win_lo(idx.0 as int) <= s
            &&& s + 2 <= win_hi(idx.0 as int, BOARD_VISIBLE_HEIGHT as int)
            &&& #[trigger] matches_form(b, s, idx.1 as int, f)
            &&& matches_form(b, s + 1, idx.1 as int, f)
            &&& matches_form(b, s + 2, idx.1 as int, f)
        }
}

/// Three consecutive cells of kind `f` lie in `idx`'s row, inside the
/// window around `idx`'s column.
pub open spec fn row_run3(b: Seq<Seq<Cell>>, idx: BoardIndex, f: Form) -> bool {
    exists|s: int|
        {
            &&& win_lo(idx.1 as int) <= s
            &&& s + 2 <= win_hi(idx.1 as int, BOARD_WIDTH as int)
            &&& #[trigger] matches_form(b, idx.0 as int, s, f)
            &&& matches_form(b, idx.0 as int, s + 1, f)
            &&& matches_form(b, idx.0 as int, s + 2, f)
        }
}

/// The tile at `idx` sits in a run of three or more of its kind, along its
/// row or along its column, within the checked window.
pub open spec fn local_match_at(b: Seq<Seq<Cell>>, idx: BoardIndex) -> bool {
    match cell_tile(b, idx.0 as int, idx.1 as int) {
        Some(t) => col_run3(b, idx, t.form) || row_run3(b, idx, t.form),
        None => false,
    }
}

/// Either end of the swapped pair created a local run.
pub open spec fn pending_pair_matches(b: Seq<Seq<Cell>>, a: BoardIndex, bb: BoardIndex) -> bool {
    local_match_at(b, a) || local_match_at(b, bb)
}

/// The tile at `idx`, if any, is still gliding.
pub open spec fn cell_waiting(b: Seq<Seq<Cell>>, idx: BoardIndex) -> bool {
    match cell_tile(b, idx.0 as int, idx.1 as int) {
        Some(t) => !(t.state is Idle),
        None => false,
    }
}

/// The board and pending check after the validator runs: while either tile
/// still glides nothing happens; otherwise the check is cleared, and the
/// swap is undone unless one of the two positions sits in a local run (a
/// pair that is no longer two resting tiles cannot be exchanged back).
pub open spec fn spec_validate(
    b: Seq<Seq<Cell>>,
    p: Option<(BoardIndex, BoardIndex)>,
) -> (Seq<Seq<Cell>>, Option<(BoardIndex, BoardIndex)>) {
    match p {
        None => (b, None),
        Some((a, bb)) => {
            if cell_waiting(b, a) || cell_waiting(b, bb) {
                (b, p)
            } else if pending_pair_matches(b, a, bb) {
                (b, None)
            } else if cell_ready(b, a) && cell_ready(b, bb) {
                (swap_result(b, a, bb), None)
            } else {
                (b, None)
            }
        },
    }
}

/// Walks `idx`'s column inside the window around `idx`'s row and reports
/// whether three consecutive cells hold tiles of kind `form`.
fn scan_window_col(board: &Board, idx: BoardIndex, form: Form) -> (r: bool)
    ensures
        r == col_run3(board@, idx, form),
{
    let lo: usize = if idx.0 >= 2 {
        idx.0 - 2
    } else {
        0
    };
    if idx.0 >= BOARD_VISIBLE_HEIGHT + 2 {
        proof {
            assert(win_lo(idx.0 as int) > win_hi(idx.0 as int, BOARD_VISIBLE_HEIGHT as int));
        }
        return false;
    }
    let hi: usize = if idx.0 + 2 <= BOARD_VISIBLE_HEIGHT - 1 {
        idx.0 + 2
    } else {
        BOARD_VISIBLE_HEIGHT - 1
    };
    let mut matched: usize = 0;
    let mut k: usize = lo;
    while k <= hi
        invariant
            lo == win_lo(idx.0 as int),
            hi == win_hi(idx.0 as int, BOARD_VISIBLE_HEIGHT as int),
            lo <= k <= hi + 1,
            matched <= 2,
            matched <= k - lo,
            matched >= 1 ==> matches_form(board@, k - 1, idx.1 as int, form),
            matched >= 2 ==> matches_form(board@, k - 2, idx.1 as int, form),
            matched == 0 ==> k == lo || !matches_form(board@, k - 1, idx.1 as int, form),
            matched == 1 ==> k - 1 == lo || !matches_form(board@, k - 2, idx.1 as int, form),
            forall|s: int|
                lo <= s && s + 3 <= k ==> !(#[trigger] matches_form(board@, s, idx.1 as int, form)
                    && matches_form(board@, s + 1, idx.1 as int, form) && matches_form(
                    board@,
                    s + 2,
                    idx.1 as int,
                    form,
                )),
        decreases hi + 1 - k,
    {
        let mut here = false;
        if let Some(cell) = board.get(BoardIndex(k, idx.1)) {
            if let Some(t) = &cell.tile {
                here = t.form == form;
            }
        }
        proof {
            assert(here == matches_form(board@, k as int, idx.1 as int, form));
        }
        if here {
            if matched >= 2 {
                proof {
                    assert(col_run3(board@, idx, form)) by {
                        assert(matches_form(board@, k - 2, idx.1 as int, form)
                            && matches_form(board@, k - 1, idx.1 as int, form)
                            && matches_form(board@, k as int, idx.1 as int, form));
                    }
                }
                return true;
            }
            matched = matched + 1;
        } else {
            matched = 0;
        }
        k = k + 1;
    }
    proof {
        assert(!col_run3(board@, idx, form));
    }
    false
}

/// Walks `idx`'s row inside the window around `idx`'s column and reports
/// whether three consecutive cells hold tiles of kind `form`.
fn scan_window_row(board: &Board, idx: BoardIndex, form: Form) -> (r: bool)
    ensures
        r == row_run3(board@, idx, form),
{
    let lo: usize = if idx.1 >= 2 {
        idx.1 - 2
    } else {
        0
    };
    if idx.1 >= BOARD_WIDTH + 2 {
        proof {
            assert(win_lo(idx.1 as int) > win_hi(idx.1 as int, BOARD_WIDTH as int));
        }
        return false;
    }
    let hi: usize = if idx.1 + 2 <= BOARD_WIDTH - 1 {
        idx.1 + 2
    } else {
        BOARD_WIDTH - 1
    };
    let mut matched: usize = 0;
    let mut k: usize = lo;
    while k <= hi
        invariant
            lo == win_lo(idx.1 as int),
            hi == win_hi(idx.1 as int, BOARD_WIDTH as int),
            lo <= k <= hi + 1,
            matched <= 2,
            matched <= k - lo,
            matched >= 1 ==> matches_form(board@, idx.0 as int, k - 1, form),
            matched >= 2 ==> matches_form(board@, idx.0 as int, k - 2, form),
            matched == 0 ==> k == lo || !matches_form(board@, idx.0 as int, k - 1, form),
            matched == 1 ==> k - 1 == lo || !matches_form(board@, idx.0 as int, k - 2, form),
            forall|s: int|
                lo <= s && s + 3 <= k ==> !(#[trigger] matches_form(board@, idx.0 as int, s, form)
                    && matches_form(board@, idx.0 as int, s + 1, form) && matches_form(
                    board@,
                    idx.0 as int,
                    s + 2,
                    form,
                )),
        decreases hi + 1 - k,
    {
        let mut here = false;
        if let Some(cell) = board.get(BoardIndex(idx.0, k)) {
            if let Some(t) = &cell.tile {
                here = t.form == form;
            }
        }
        proof {
            assert(here == matches_form(board@, idx.0 as int, k as int, form));
        }
        if here {
            if matched >= 2 {
                proof {
                    assert(row_run3(board@, idx, form)) by {
                        assert(matches_form(board@, idx.0 as int, k - 2, form)
                            && matches_form(board@, idx.0 as int, k - 1, form)
                            && matches_form(board@, idx.0 as int, k as int, form));
                    }
                }
                return true;
            }
            matched = matched + 1;
        } else {
            matched = 0;
        }
        k = k + 1;
    }
    proof {
        assert(!row_run3(board@, idx, form));
    }
    false
}

/// Reports whether the tile at `idx` sits in a run of three within the
/// checked window, along its row or column.
pub fn has_local_match(board: &Board, idx: BoardIndex) -> (r: bool)
    ensures
        r == local_match_at(board@, idx),
{
    let cell = match board.get(idx) {
        Some(cell) => *cell,
        None => {
            return false;
        },
    };
    let tile = match cell.tile {
        Some(t) => t,
        None => {
            return false;
        },
    };
    if scan_window_col(board, idx, tile.form) {
        return true;
    }
    scan_window_row(board, idx, tile.form)
}

/// Once both tiles of the pending tentative swap have settled, checks a
/// bounded window around each of the two positions; if neither created a
/// run of three, the swap is reverted (tiles are exchanged back and glide
/// to their original cells). Either way the pending check is cleared.
pub fn check_swapped_for_matching(
    board: &mut Board,
    pending_swap: &mut Option<(BoardIndex, BoardIndex)>,
    out: &mut Vec<GameEvent>,
)
    requires
        well_sized(old(board)@),
        board_tiles_wf(old(board)@),
        match *old(pending_swap) {
            Some((a, bb)) => idx_in_bounds(old(board)@, a) && idx_in_bounds(old(board)@, bb)
                && manhattan(a, bb) == 1,
            None => true,
        },
    ensures
        well_sized(final(board)@),
        board_tiles_wf(final(board)@),
        final(board)@ == spec_validate(old(board)@, *old(pending_swap)).0,
        *final(pending_swap) == spec_validate(old(board)@, *old(pending_swap)).1,
        (*old(pending_swap)) is None ==> final(board)@ == old(board)@
            && (*final(pending_swap)) is None && final(out)@ == old(out)@,
        ({
            let b0 = old(board)@;
            let b1 = final(board)@;
            let p1 = *final(pending_swap);
            let out0 = old(out)@;
            let out1 = final(out)@;
            match *old(pending_swap) {
                None => true,
                Some((a, bb)) => {
                    let waiting = cell_waiting(b0, a) || cell_waiting(b0, bb);
                    let revert_ready = cell_ready(b0, a) && cell_ready(b0, bb);
                    &&& (waiting ==> b1 == b0 && p1 == *old(pending_swap) && out1 == out0)
                    &&& (!waiting && pending_pair_matches(b0, a, bb) ==> b1 == b0 && p1 is None
                        && out1 == out0)
                    &&& (!waiting && !pending_pair_matches(b0, a, bb) && revert_ready ==> b1
                        == swap_result(b0, a, bb) && p1 is None && out1 == out0 + swap_events(
                        b0,
                        a,
                        bb,
                    ))
                    &&& (!waiting && !pending_pair_matches(b0, a, bb) && !revert_ready ==> b1 == b0
                        && p1 is None && out1 == out0)
                },
            }
        }),
{
    let (a, bb) = match *pending_swap {
        Some(p) => p,
        None => {
            return;
        },
    };
    let wait_a = match &board.get(a).unwrap().tile {
        Some(t) => !matches!(t.state, TileState::Idle),
        None => false,
    };
    let wait_b = match &board.get(bb).unwrap().tile {
        Some(t) => !matches!(t.state, TileState::Idle),
        None => false,
    };
    if wait_a || wait_b {
        return;
    }
    let found = has_local_match(board, a) || has_local_match(board, bb);
    *pending_swap = None;
    if !found {
        swap_tiles(board, a, bb, out);
    }
}

/// Law: swapping two tiles, letting any amount of motion pass, and swapping
/// them back restores the board's arrangement of tile kinds exactly.
pub proof fn lemma_swap_revert_round_trip(
    b: Seq<Seq<Cell>>,
    i1: BoardIndex,
    i2: BoardIndex,
    delta: int,
    n: int,
)
    requires
        well_sized(b),
        idx_in_bounds(b, i1),
        idx_in_bounds(b, i2),
        i1 != i2,
        b[i1.0 as int][i1.1 as int].tile is Some,
        b[i2.0 as int][i2.1 as int].tile is Some,
    ensures
        forall|r: int, c: int| #[trigger]
            kind_at(
                swap_result(spec_advance_board_n(swap_result(b, i1, i2), delta, n), i1, i2),
                r,
                c,
            ) == kind_at(b, r, c),
{
    let b1 = swap_result(b, i1, i2);
    lemma_advance_board_n_kinds(b1, delta, n);
    let b2 = spec_advance_board_n(b1, delta, n);
    let b3 = swap_result(b2, i1, i2);
    assert forall|r: int, c: int| #[trigger] kind_at(b3, r, c) == kind_at(b, r, c) by {
        assert(kind_at(b2, i1.0 as int, i1.1 as int) == kind_at(b1, i1.0 as int, i1.1 as int));
        assert(kind_at(b2, i2.0 as int, i2.1 as int) == kind_at(b1, i2.0 as int, i2.1 as int));
        assert(kind_at(b2, r, c) == kind_at(b1, r, c));
    }
}

} // verus!
