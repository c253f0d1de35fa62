//! The match scanner: a full-board sweep that finds runs of three or more
//! same-kind resting tiles along rows and columns, collects their indices
//! for despawning and scores them.
//!
//! For each `i` below `n = max(width, visibleHeight)` the scanner walks row
//! `i` and column `i` side by side, keeping one running streak per
//! direction. A streak breaks when the kind changes; a broken or trailing
//! streak of length three or more is flushed into the despawn list and
//! scores ten points per tile. Meeting a tile that is still moving aborts
//! both sweeps of that `i` for this tick and discards their unflushed
//! streaks; the deferred matches are found again once motion settles.

use vstd::prelude::*;

use crate::board::{
    cell_tile, idx_in_bounds, Board, BoardIndex, Cell, Form, Tile, TileState,
    BOARD_VISIBLE_HEIGHT, BOARD_WIDTH,
};

verus! {

/// Score awarded per despawned tile.
pub const SCORE_PER_TILE: u64 = 10;

/// Largest score gain a single full-board scan can produce.
pub const MAX_SCAN_GAIN: u64 = 2000;

/// The state of the two side-by-side sweeps for one value of `i`.
pub ghost struct ScanState {
    /// Kind of the current row streak.
    pub form_row: Form,
    /// Kind of the current column streak.
    pub form_col: Form,
    /// Indices of the current row streak, in sweep order.
    pub run_row: Seq<BoardIndex>,
    /// Indices of the current column streak, in sweep order.
    pub run_col: Seq<BoardIndex>,
    /// Indices flushed into the despawn list so far.
    pub found: Seq<BoardIndex>,
    /// Score gained so far.
    pub gain: int,
    /// A moving tile was met: the rest of this `i` is not scanned.
    pub aborted: bool,
}

/// Number of row/column pairs the scanner sweeps.
pub open spec fn scan_n() -> int {
    if BOARD_WIDTH >= BOARD_VISIBLE_HEIGHT {
        BOARD_WIDTH as int
    } else {
        BOARD_VISIBLE_HEIGHT as int
    }
}

/// Fresh sweep state for one value of `i`, carrying the indices and score
/// gained by earlier sweeps.
pub open spec fn line_init(found: Seq<BoardIndex>, gain: int) -> ScanState {
    ScanState {
        form_row: Form::Square,
        form_col: Form::Square,
        run_row: Seq::empty(),
        run_col: Seq::empty(),
        found,
        gain,
        aborted: false,
    }
}

/// The row sweep's visit of position `j` of row `i`: an empty position is
/// skipped, a moving tile aborts, a kind change flushes the streak (scoring
/// it if it has three or more tiles), and the tile joins the streak.
pub open spec fn row_sub(b: Seq<Seq<Cell>>, i: int, j: int, st: ScanState) -> ScanState {
    match cell_tile(b, i, j) {
        None => st,
        Some(t) => {
            if !(t.state is Idle) {
                ScanState { aborted: true, ..st }
            } else {
                let st1 = if st.form_row != t.form {
                    if st.run_row.len() >= 3 {
                        ScanState {
                            found: st.found + st.run_row,
                            gain: st.gain + SCORE_PER_TILE * st.run_row.len(),
                            run_row: Seq::empty(),
                            form_row: t.form,
                            ..st
                        }
                    } else {
                        ScanState { run_row: Seq::empty(), form_row: t.form, ..st }
                    }
                } else {
                    st
                };
                ScanState {
                    run_row: st1.run_row.push(BoardIndex(i as usize, j as usize)),
                    ..st1
                }
            }
        },
    }
}

/// The column sweep's visit of position `j` of column `i`, symmetric to the
/// row sweep.
pub open spec fn col_sub(b: Seq<Seq<Cell>>, i: int, j: int, st: ScanState) -> ScanState {
    match cell_tile(b, j, i) {
        None => st,
        Some(t) => {
            if !(t.state is Idle) {
                ScanState { aborted: true, ..st }
            } else {
                let st1 = if st.form_col != t.form {
                    if st.run_col.len() >= 3 {
                        ScanState {
                            found: st.found + st.run_col,
                            gain: st.gain + SCORE_PER_TILE * st.run_col.len(),
                            run_col: Seq::empty(),
                            form_col: t.form,
                            ..st
                        }
                    } else {
                        ScanState { run_col: Seq::empty(), form_col: t.form, ..st }
                    }
                } else {
                    st
                };
                ScanState {
                    run_col: st1.run_col.push(BoardIndex(j as usize, i as usize)),
                    ..st1
                }
            }
        },
    }
}

/// One step of the sweeps for `i`: the row visit, then — unless the sweep
/// aborted — the column visit.
pub open spec fn scan_step(b: Seq<Seq<Cell>>, i: int, j: int, st: ScanState) -> ScanState {
    if st.aborted {
        st
    } else {
        let st1 = row_sub(b, i, j, st);
        if st1.aborted {
            st1
        } else {
            col_sub(b, i, j, st1)
        }
    }
}

/// The sweep state for `i` after visiting positions `0..j`.
pub open spec fn scan_line_to(b: Seq<Seq<Cell>>, i: int, j: int, init: ScanState) -> ScanState
    decreases j,
{
    if j <= 0 {
        init
    } else {
        scan_step(b, i, j - 1, scan_line_to(b, i, j - 1, init))
    }
}

/// The outcome of the sweeps for one `i`: trailing streaks of three or more
/// are flushed, unless the sweep aborted, which discards them.
pub open spec fn line_finish(st: ScanState) -> (Seq<BoardIndex>, int) {
    if st.aborted {
        (st.found, st.gain)
    } else {
        let f1 = if st.run_row.len() >= 3 {
            (st.found + st.run_row, st.gain + SCORE_PER_TILE * st.run_row.len())
        } else {
            (st.found, st.gain)
        };
        if st.run_col.len() >= 3 {
            (f1.0 + st.run_col, f1.1 + SCORE_PER_TILE * st.run_col.len())
        } else {
            f1
        }
    }
}

/// Despawn indices and score gain after the sweeps for all `i` below
/// `lines`.
pub open spec fn scan_lines(b: Seq<Seq<Cell>>, lines: int) -> (Seq<BoardIndex>, int)
    decreases lines,
{
    if lines <= 0 {
        (Seq::empty(), 0)
    } else {
        let prev = scan_lines(b, lines - 1);
        line_finish(scan_line_to(b, lines - 1, scan_n(), line_init(prev.0, prev.1)))
    }
}

/// What one full scan of the board finds: the indices to despawn, in
/// discovery order, and the score they gain.
pub open spec fn spec_scan(b: Seq<Seq<Cell>>) -> (Seq<BoardIndex>, int) {
    scan_lines(b, scan_n())
}

/// Law: the scanner reads the board and nothing else, so scanning an
/// unchanged board twice finds the same despawn indices and the same score
/// gain both times; score is not double-counted by a repeated scan.
pub proof fn lemma_scan_idempotent(b1: Seq<Seq<Cell>>, b2: Seq<Seq<Cell>>)
    requires
        b1 == b2,
    ensures
        spec_scan(b1).0 == spec_scan(b2).0,
        spec_scan(b1).1 == spec_scan(b2).1,
{
}

/// Two boards look alike to the scanner: the same cells are occupied, with
/// the same kinds, and the same tiles are resting.
pub open spec fn same_scan_view(b1: Seq<Seq<Cell>>, b2: Seq<Seq<Cell>>) -> bool {
    &&& b1.len() == b2.len()
    &&& forall|r: int| 0 <= r < b1.len() ==> (#[trigger] b1[r]).len() == b2[r].len()
    &&& forall|r: int, c: int|
        0 <= r < b1.len() && 0 <= c < b1[r].len() ==> match (
            (#[trigger] b1[r][c]).tile,
            b2[r][c].tile,
        ) {
            (Some(t1), Some(t2)) => t1.form == t2.form && ((t1.state is Idle) <==> (
            t2.state is Idle)),
            (None, None) => true,
            _ => false,
        }
}

/// One visit treats look-alike boards the same way.
proof fn lemma_scan_step_same(b1: Seq<Seq<Cell>>, b2: Seq<Seq<Cell>>, i: int, j: int, st: ScanState)
    requires
        same_scan_view(b1, b2),
    ensures
        scan_step(b1, i, j, st) == scan_step(b2, i, j, st),
{
    assert(cell_tile(b1, i, j) is Some <==> cell_tile(b2, i, j) is Some);
    assert(cell_tile(b1, j, i) is Some <==> cell_tile(b2, j, i) is Some);
}

/// A whole sweep treats look-alike boards the same way.
proof fn lemma_scan_line_same(
    b1: Seq<Seq<Cell>>,
    b2: Seq<Seq<Cell>>,
    i: int,
    j: int,
    init: ScanState,
)
    requires
        same_scan_view(b1, b2),
    ensures
        scan_line_to(b1, i, j, init) == scan_line_to(b2, i, j, init),
    decreases j,
{
    if j > 0 {
        lemma_scan_line_same(b1, b2, i, j - 1, init);
        lemma_scan_step_same(b1, b2, i, j - 1, scan_line_to(b1, i, j - 1, init));
    }
}

/// Law: the scan is a function of each cell's kind and of whether its tile
/// rests — never of tile positions, presentation handles, or anything
/// outside the board. Boards that agree on those produce the same despawn
/// indices and the same score gain.
pub proof fn lemma_scan_reads_only_kinds_and_motion(b1: Seq<Seq<Cell>>, b2: Seq<Seq<Cell>>)
    ensures
        same_scan_view(b1, b2) ==> spec_scan(b1) == spec_scan(b2),
{
    if same_scan_view(b1, b2) {
        lemma_scan_lines_same(b1, b2, scan_n());
    }
}

/// All sweeps together treat look-alike boards the same way.
proof fn lemma_scan_lines_same(b1: Seq<Seq<Cell>>, b2: Seq<Seq<Cell>>, lines: int)
    requires
        same_scan_view(b1, b2),
    ensures
        scan_lines(b1, lines) == scan_lines(b2, lines),
    decreases lines,
{
    if lines > 0 {
        lemma_scan_lines_same(b1, b2, lines - 1);
        let prev = scan_lines(b1, lines - 1);
        lemma_scan_line_same(b1, b2, lines - 1, scan_n(), line_init(prev.0, prev.1));
    }
}

/// Once a sweep has aborted, the remaining visits change nothing.
proof fn lemma_scan_line_stable(b: Seq<Seq<Cell>>, i: int, j: int, k: int, init: ScanState)
    requires
        0 <= j <= k,
        scan_line_to(b, i, j, init).aborted,
    ensures
        scan_line_to(b, i, k, init) == scan_line_to(b, i, j, init),
    decreases k - j,
{
    if k > j {
        lemma_scan_line_stable(b, i, j, k - 1, init);
    }
}

/// Scans the whole board once: appends every index that is part of a
/// completed run of three or more resting same-kind tiles to
/// `tiles_to_despawn` and adds ten points per appended index to `score`.
/// The caller leaves the score counter headroom for one scan's largest
/// possible gain.
#[verifier::loop_isolation(false)]
#[verifier::rlimit(100)]
pub fn check_board_for_matching(
    score: &mut u64,
    board: &Board,
    tiles_to_despawn: &mut Vec<BoardIndex>,
)
    requires
        *old(score) <= u64::MAX - MAX_SCAN_GAIN,
    ensures
        final(tiles_to_despawn)@ == old(tiles_to_despawn)@ + spec_scan(board@).0,
        *final(score) == *old(score) + spec_scan(board@).1,
        0 <= spec_scan(board@).1 <= MAX_SCAN_GAIN,
        forall|k: int|
            0 <= k < spec_scan(board@).0.len() ==> {
                &&& idx_in_bounds(board@, #[trigger] spec_scan(board@).0[k])
                &&& (spec_scan(board@).0[k]).0 < scan_n()
                &&& (spec_scan(board@).0[k]).1 < scan_n()
            },
{
    let n: usize = if board.width() >= board.visible_height() {
        board.width()
    } else {
        board.visible_height()
    };
    proof {
        assert(n as int == scan_n());
    }
    let mut gain_total: u64 = 0;
    let mut i: usize = 0;
    while i < n
        invariant
            i <= n,
            tiles_to_despawn@ == old(tiles_to_despawn)@ + scan_lines(board@, i as int).0,
            gain_total as int == scan_lines(board@, i as int).1,
            gain_total <= 200 * i,
            forall|k: int|
                old(tiles_to_despawn)@.len() <= k < tiles_to_despawn@.len() ==> {
                    &&& idx_in_bounds(board@, #[trigger] tiles_to_despawn@[k])
                    &&& (tiles_to_despawn@[k]).0 < scan_n()
                    &&& (tiles_to_despawn@[k]).1 < scan_n()
                },
            *score == *old(score),
        decreases n - i,
    {
        let ghost base = scan_lines(board@, i as int);
        let mut form_row = Form::Square;
        let mut form_col = Form::Square;
        let mut run_row: Vec<BoardIndex> = Vec::new();
        let mut run_col: Vec<BoardIndex> = Vec::new();
        let mut aborted = false;
        let mut j: usize = 0;
        proof {
            assert(tiles_to_despawn@ =~= old(tiles_to_despawn)@ + base.0);
        }
        while j < n && !aborted
            invariant
                j <= n,
                ({
                    let st = scan_line_to(board@, i as int, j as int, line_init(base.0, base.1));
                    &&& aborted == st.aborted
                    &&& run_row@ == st.run_row
                    &&& run_col@ == st.run_col
                    &&& (!aborted ==> form_row == st.form_row && form_col == st.form_col)
                    &&& tiles_to_despawn@ == old(tiles_to_despawn)@ + st.found
                    &&& gain_total as int == st.gain
                    &&& gain_total + SCORE_PER_TILE * run_row@.len() + SCORE_PER_TILE
                        * run_col@.len() <= 200 * i + 20 * j
                }),
                run_row@.len() <= j,
                run_col@.len() <= j,
                forall|k: int|
                    0 <= k < run_row@.len() ==> {
                        &&& idx_in_bounds(board@, #[trigger] run_row@[k])
                        &&& (run_row@[k]).0 < scan_n()
                        &&& (run_row@[k]).1 < scan_n()
                    },
                forall|k: int|
                    0 <= k < run_col@.len() ==> {
                        &&& idx_in_bounds(board@, #[trigger] run_col@[k])
                        &&& (run_col@[k]).0 < scan_n()
                        &&& (run_col@[k]).1 < scan_n()
                    },
                forall|k: int|
                    old(tiles_to_despawn)@.len() <= k < tiles_to_despawn@.len() ==> {
                        &&& idx_in_bounds(board@, #[trigger] tiles_to_despawn@[k])
                        &&& (tiles_to_despawn@[k]).0 < scan_n()
                        &&& (tiles_to_despawn@[k]).1 < scan_n()
                    },
                *score == *old(score),
            decreases n - j,
        {
            let ghost st = scan_line_to(board@, i as int, j as int, line_init(base.0, base.1));

            let mut row_tile: Option<Tile> = None;
            if let Some(rowv) = board.get_row(i) {
                if j < rowv.len() {
                    row_tile = rowv[j].tile;
                }
            }
            proof {
                assert(row_tile == cell_tile(board@, i as int, j as int));
            }
            if let Some(tile) = row_tile {
                if !matches!(tile.state, TileState::Idle) {
                    aborted = true;
                } else {
                    if form_row != tile.form {
                        if run_row.len() >= 3 {
                            gain_total = gain_total + SCORE_PER_TILE * (run_row.len() as u64);
                            tiles_to_despawn.append(&mut run_row);
                        } else {
                            run_row.clear();
                        }
                        form_row = tile.form;
                    }
                    run_row.push(BoardIndex(i, j));
                }
            }
            let ghost st1 = row_sub(board@, i as int, j as int, st);
            proof {
                assert(aborted == st1.aborted);
                assert(run_row@ =~= st1.run_row);
                assert(tiles_to_despawn@ =~= old(tiles_to_despawn)@ + st1.found);
            }
            if !aborted {
                let mut col_tile: Option<Tile> = None;
                if let Some(rowv) = board.get_row(j) {
                    if i < rowv.len() {
                        col_tile = rowv[i].tile;
                    }
                }
                proof {
                    assert(col_tile == cell_tile(board@, j as int, i as int));
                }
                if let Some(tile) = col_tile {
                    if !matches!(tile.state, TileState::Idle) {
                        aborted = true;
                    } else {
                        if form_col != tile.form {
                            if run_col.len() >= 3 {
                                gain_total = gain_total + SCORE_PER_TILE * (run_col.len() as u64);
                                tiles_to_despawn.append(&mut run_col);
                            } else {
                                run_col.clear();
                            }
                            form_col = tile.form;
                        }
                        run_col.push(BoardIndex(j, i));
                    }
                }
            }
            proof {
                let st2 = scan_step(board@, i as int, j as int, st);
                assert(aborted == st2.aborted);
                assert(run_row@ =~= st2.run_row);
                assert(run_col@ =~= st2.run_col);
                assert(tiles_to_despawn@ =~= old(tiles_to_despawn)@ + st2.found);
                assert(scan_line_to(board@, i as int, j as int + 1, line_init(base.0, base.1))
                    == st2);
            }
            j = j + 1;
        }
        proof {
            if aborted {
                lemma_scan_line_stable(
                    board@,
                    i as int,
                    j as int,
                    scan_n(),
                    line_init(base.0, base.1),
                );
            }
        }
        if !aborted {
            if run_row.len() >= 3 {
                gain_total = gain_total + SCORE_PER_TILE * (run_row.len() as u64);
                tiles_to_despawn.append(&mut run_row);
            }
            if run_col.len() >= 3 {
                gain_total = gain_total + SCORE_PER_TILE * (run_col.len() as u64);
                tiles_to_despawn.append(&mut run_col);
            }
        }
        proof {
            let fin = line_finish(scan_line_to(board@, i as int, scan_n(), line_init(base.0, base.1)));
            assert(tiles_to_despawn@ =~= old(tiles_to_despawn)@ + fin.0);
            assert(gain_total as int == fin.1);
            assert(scan_lines(board@, i as int + 1) == fin);
        }
        i = i + 1;
    }
    *score = *score + gain_total;
    proof {
        assert forall|k: int| 0 <= k < spec_scan(board@).0.len() implies {
            &&& idx_in_bounds(board@, #[trigger] spec_scan(board@).0[k])
            &&& (spec_scan(board@).0[k]).0 < scan_n()
            &&& (spec_scan(board@).0[k]).1 < scan_n()
        } by {
            assert(spec_scan(board@).0[k] == tiles_to_despawn@[old(tiles_to_despawn)@.len() + k]);
        }
    }
}

} // verus!
