//! Resolution and refill: despawns matched tiles, compacts every column
//! under gravity, and replenishes the hidden reservoir with freshly
//! generated tiles.

use vstd::prelude::*;

use crate::board::{
    cell_point, cell_tile, col_x, idx_in_bounds, row_y, well_sized, Board, BoardIndex, Cell,
    Form, Point, Tile, TileState, BOARD_HEIGHT, BOARD_VISIBLE_HEIGHT, BOARD_WIDTH,
};
use crate::events::GameEvent;
use crate::motion::{board_tiles_wf, tile_wf};

verus! {

/// Number of tile kinds the uniform-random generator draws from.
pub const KIND_COUNT: u32 = 3;

/// The board and destruction notifications after draining a despawn queue,
/// most recently queued index first: each queued cell that still holds a
/// tile is emptied; duplicate or already-empty entries are skipped.
pub open spec fn spec_drain(b: Seq<Seq<Cell>>, s: Seq<BoardIndex>) -> (
    Seq<Seq<Cell>>,
    Seq<GameEvent>,
)
    decreases s.len(),
{
    if s.len() == 0 {
        (b, Seq::empty())
    } else {
        let idx = s.last();
        let hit = idx_in_bounds(b, idx) && b[idx.0 as int][idx.1 as int].tile is Some;
        let b1 = if hit {
            b.update(idx.0 as int, b[idx.0 as int].update(idx.1 as int, Cell { tile: None }))
        } else {
            b
        };
        let ev1: Seq<GameEvent> = if hit {
            seq![
                GameEvent::TileDestroyed {
                    entity: b[idx.0 as int][idx.1 as int].tile->Some_0.entity,
                },
            ]
        } else {
            Seq::empty()
        };
        let rest = spec_drain(b1, s.drop_last());
        (rest.0, ev1 + rest.1)
    }
}

/// Draining empties exactly the queued cells: a cell is left holding a tile
/// iff it held one before and was not queued.
pub proof fn lemma_drain_cells(b: Seq<Seq<Cell>>, s: Seq<BoardIndex>, r: int, c: int)
    requires
        0 <= r < b.len(),
        0 <= c < b[r].len(),
        r <= usize::MAX,
        c <= usize::MAX,
    ensures
        spec_drain(b, s).0.len() == b.len(),
        spec_drain(b, s).0[r].len() == b[r].len(),
        cell_tile(spec_drain(b, s).0, r, c) == if s.contains(BoardIndex(r as usize, c as usize)) {
            None::<Tile>
        } else {
            cell_tile(b, r, c)
        },
    decreases s.len(),
{
    if s.len() > 0 {
        let idx = s.last();
        let hit = idx_in_bounds(b, idx) && b[idx.0 as int][idx.1 as int].tile is Some;
        let b1 = if hit {
            b.update(idx.0 as int, b[idx.0 as int].update(idx.1 as int, Cell { tile: None }))
        } else {
            b
        };
        lemma_drain_cells(b1, s.drop_last(), r, c);
        if s.contains(BoardIndex(r as usize, c as usize))
            && !s.drop_last().contains(BoardIndex(r as usize, c as usize)) {
            assert(s.last() == BoardIndex(r as usize, c as usize)) by {
                let i = choose|i: int|
                    0 <= i < s.len() && s[i] == BoardIndex(r as usize, c as usize);
                if i < s.len() - 1 {
                    assert(s.drop_last()[i] == BoardIndex(r as usize, c as usize));
                }
            }
        }
        if s.drop_last().contains(BoardIndex(r as usize, c as usize)) {
            let i = choose|i: int|
                0 <= i < s.drop_last().len() && s.drop_last()[i] == BoardIndex(
                    r as usize,
                    c as usize,
                );
            assert(s[i] == BoardIndex(r as usize, c as usize));
        }
    }
}

/// The occupied positions of column `c` among rows `0..r`, bottom-up:
/// each entry pairs a row with the tile that sits there.
pub open spec fn occ_upto(b: Seq<Seq<Cell>>, c: int, r: int) -> Seq<(int, Tile)>
    decreases r,
{
    if r <= 0 {
        Seq::empty()
    } else {
        occ_upto(b, c, r - 1) + match cell_tile(b, r - 1, c) {
            Some(t) => seq![(r - 1, t)],
            None => Seq::<(int, Tile)>::empty(),
        }
    }
}

/// The occupied positions of the whole column `c`, bottom-up.
pub open spec fn col_occ(b: Seq<Seq<Cell>>, c: int) -> Seq<(int, Tile)> {
    occ_upto(b, c, BOARD_HEIGHT as int)
}

/// Column `c` has an empty cell inside the visible area, so compaction
/// will run for it.
pub open spec fn col_has_visible_gap(b: Seq<Seq<Cell>>, c: int) -> bool {
    exists|r: int| 0 <= r < BOARD_VISIBLE_HEIGHT && (#[trigger] cell_tile(b, r, c)) is None
}

/// The tile formerly at row `r0` of column `c` once compaction has assigned
/// it row `k`: a tile that keeps its row is untouched; one that moves down
/// starts gliding toward its new cell from its current height, aligned to
/// the column. A tile whose recorded position cannot glide down to the new
/// cell settles there at once.
pub open spec fn compact_tile(t: Tile, r0: int, k: int, c: int) -> Tile {
    if r0 == k {
        t
    } else {
        let target = Point { x: col_x(c) as i64, y: row_y(k) as i64 };
        if r0 > k && t.pos.y > target.y && t.pos.y <= row_y(BOARD_HEIGHT - 1) {
            Tile {
                pos: Point { x: target.x, y: t.pos.y },
                state: TileState::Moving {
                    from: BoardIndex(r0 as usize, c as usize),
                    to: BoardIndex(k as usize, c as usize),
                },
                ..t
            }
        } else {
            Tile { pos: target, state: TileState::Idle, ..t }
        }
    }
}

/// The move notification for a tile compacted into row `k` of column `c`.
pub open spec fn compact_move_event(t: Tile, k: int, c: int) -> GameEvent {
    GameEvent::TileMoveTarget {
        entity: t.entity,
        target: Point { x: col_x(c) as i64, y: row_y(k) as i64 },
    }
}

/// The move notifications for the first `k` entries of a compacted column:
/// one per tile that changes row.
pub open spec fn compact_events_upto(occ: Seq<(int, Tile)>, c: int, k: int) -> Seq<GameEvent>
    decreases k,
{
    if k <= 0 {
        Seq::empty()
    } else {
        compact_events_upto(occ, c, k - 1) + if occ[k - 1].0 != k - 1 {
            seq![compact_move_event(occ[k - 1].1, k - 1, c)]
        } else {
            Seq::<GameEvent>::empty()
        }
    }
}

/// The move notifications produced by compacting column `c` of `b`.
pub open spec fn col_compact_events(b: Seq<Seq<Cell>>, c: int) -> Seq<GameEvent> {
    if col_has_visible_gap(b, c) {
        compact_events_upto(col_occ(b, c), c, col_occ(b, c).len() as int)
    } else {
        Seq::empty()
    }
}

/// The move notifications produced by compacting columns `0..c_upto` of `b`.
pub open spec fn compact_all_events(b: Seq<Seq<Cell>>, c_upto: int) -> Seq<GameEvent>
    decreases c_upto,
{
    if c_upto <= 0 {
        Seq::empty()
    } else {
        compact_all_events(b, c_upto - 1) + col_compact_events(b, c_upto - 1)
    }
}

/// The tile that compaction leaves at `(r, c)`: in a column with a visible
/// gap, the column's occupied entries settle into the bottom rows in order;
/// a column without one is untouched.
pub open spec fn compacted_cell(b: Seq<Seq<Cell>>, r: int, c: int) -> Option<Tile> {
    if col_has_visible_gap(b, c) {
        let occ = col_occ(b, c);
        if r < occ.len() {
            Some(compact_tile(occ[r].1, occ[r].0, r, c))
        } else {
            None
        }
    } else {
        cell_tile(b, r, c)
    }
}

/// The whole board after every column was compacted under gravity.
pub open spec fn compact_board(b: Seq<Seq<Cell>>) -> Seq<Seq<Cell>> {
    Seq::new(
        BOARD_HEIGHT as nat,
        |r: int| Seq::new(BOARD_WIDTH as nat, |c: int| Cell { tile: compacted_cell(b, r, c) }),
    )
}

/// Column `c` of `b_post` is column `c` of `b_pre` compacted under gravity:
/// if the visible area had a gap, the column's tiles now occupy the rows
/// `0..count` in their original order (each moved tile gliding toward its
/// new cell) and the rows above are empty; otherwise it is untouched.
pub open spec fn col_compacted(b_pre: Seq<Seq<Cell>>, b_post: Seq<Seq<Cell>>, c: int) -> bool {
    let occ = col_occ(b_pre, c);
    if col_has_visible_gap(b_pre, c) {
        &&& forall|k: int|
            0 <= k < occ.len() ==> #[trigger] cell_tile(b_post, k, c) == Some(
                compact_tile(occ[k].1, occ[k].0, k, c),
            )
        &&& forall|k: int|
            occ.len() <= k < BOARD_HEIGHT ==> (#[trigger] cell_tile(b_post, k, c)) is None
    } else {
        forall|k: int|
            0 <= k < BOARD_HEIGHT ==> #[trigger] cell_tile(b_post, k, c) == cell_tile(b_pre, k, c)
    }
}

/// A column whose rows `0..e` are all occupied lists them as its first `e`
/// occupied positions, each at its own row.
pub proof fn lemma_occ_full_prefix(b: Seq<Seq<Cell>>, c: int, e: int)
    requires
        0 <= e,
        forall|r: int| 0 <= r < e ==> (#[trigger] cell_tile(b, r, c)) is Some,
    ensures
        occ_upto(b, c, e).len() == e,
        forall|k: int|
            0 <= k < e ==> #[trigger] occ_upto(b, c, e)[k] == (k, cell_tile(b, k, c)->Some_0),
    decreases e,
{
    if e > 0 {
        lemma_occ_full_prefix(b, c, e - 1);
    }
}

/// A column whose rows `lo..hi` are all occupied has at least `hi - lo`
/// occupied positions among its rows `0..hi`.
pub proof fn lemma_occ_count_from(b: Seq<Seq<Cell>>, c: int, lo: int, hi: int)
    requires
        0 <= lo <= hi,
        forall|r: int| lo <= r < hi ==> (#[trigger] cell_tile(b, r, c)) is Some,
    ensures
        occ_upto(b, c, hi).len() >= hi - lo,
    decreases hi - lo,
{
    if hi > lo {
        lemma_occ_count_from(b, c, lo, hi - 1);
    }
}

/// The compaction notifications for the first `k` entries depend only on
/// those entries.
proof fn lemma_compact_events_prefix(
    occ1: Seq<(int, Tile)>,
    occ2: Seq<(int, Tile)>,
    c: int,
    k: int,
)
    requires
        forall|i: int| 0 <= i < k ==> occ1[i] == occ2[i],
    ensures
        compact_events_upto(occ1, c, k) == compact_events_upto(occ2, c, k),
    decreases k,
{
    if k > 0 {
        lemma_compact_events_prefix(occ1, occ2, c, k - 1);
    }
}

/// A column lists at most one occupied position per row.
pub proof fn lemma_occ_len_bound(b: Seq<Seq<Cell>>, c: int, r: int)
    requires
        0 <= r,
    ensures
        occ_upto(b, c, r).len() <= r,
    decreases r,
{
    if r > 0 {
        lemma_occ_len_bound(b, c, r - 1);
    }
}

/// A prefix of entries that keep their rows produces no move notification.
proof fn lemma_compact_events_identity(occ: Seq<(int, Tile)>, c: int, k: int)
    requires
        forall|i: int| 0 <= i < k ==> (#[trigger] occ[i]).0 == i,
    ensures
        compact_events_upto(occ, c, k) =~= Seq::<GameEvent>::empty(),
    decreases k,
{
    if k > 0 {
        lemma_compact_events_identity(occ, c, k - 1);
    }
}

/// A compacted column stays compacted while its cells are untouched.
proof fn lemma_col_compacted_stable(
    b1: Seq<Seq<Cell>>,
    bp: Seq<Seq<Cell>>,
    bq: Seq<Seq<Cell>>,
    c: int,
)
    requires
        col_compacted(b1, bp, c),
        forall|k: int|
            0 <= k < BOARD_HEIGHT ==> #[trigger] cell_tile(bq, k, c) == cell_tile(bp, k, c),
    ensures
        col_compacted(b1, bq, c),
{
    let occ = col_occ(b1, c);
    lemma_occ_len_bound(b1, c, BOARD_HEIGHT as int);
    if col_has_visible_gap(b1, c) {
        assert forall|k: int| 0 <= k < occ.len() implies #[trigger] cell_tile(bq, k, c) == Some(
            compact_tile(occ[k].1, occ[k].0, k, c),
        ) by {
            assert(cell_tile(bp, k, c) == Some(compact_tile(occ[k].1, occ[k].0, k, c)));
        }
        assert forall|k: int| occ.len() <= k < BOARD_HEIGHT implies (#[trigger] cell_tile(
            bq,
            k,
            c,
        )) is None by {
            assert(cell_tile(bp, k, c) is None);
        }
    } else {
        assert forall|k: int| 0 <= k < BOARD_HEIGHT implies #[trigger] cell_tile(bq, k, c)
            == cell_tile(b1, k, c) by {
            assert(cell_tile(bp, k, c) == cell_tile(b1, k, c));
        }
    }
}

/// Drains the despawn queue — each queued cell that still holds a tile is
/// emptied and its presentation handle released; duplicates and
/// already-empty cells are skipped — then compacts every column: in each
/// column with an empty visible cell, all tiles above the lowest gap move
/// down to close it, pulling reservoir tiles into the visible area.
#[verifier::loop_isolation(false)]
#[verifier::rlimit(100)]
pub fn despawn_tiles(
    board: &mut Board,
    tiles_to_despawn: &mut Vec<BoardIndex>,
    out: &mut Vec<GameEvent>,
)
    requires
        well_sized(old(board)@),
        board_tiles_wf(old(board)@),
    ensures
        well_sized(final(board)@),
        board_tiles_wf(final(board)@),
        final(tiles_to_despawn)@.len() == 0,
        ({
            let b1 = spec_drain(old(board)@, old(tiles_to_despawn)@).0;
            &&& final(board)@ == compact_board(b1)
            &&& forall|c: int| 0 <= c < BOARD_WIDTH ==> #[trigger] col_compacted(b1, final(board)@, c)
            &&& final(out)@ == old(out)@ + spec_drain(old(board)@, old(tiles_to_despawn)@).1
                + compact_all_events(b1, BOARD_WIDTH as int)
        }),
{
    let ghost b0 = board@;
    let ghost full = tiles_to_despawn@;
    while tiles_to_despawn.len() != 0
        invariant
            well_sized(board@),
            board_tiles_wf(board@),
            spec_drain(board@, tiles_to_despawn@).0 == spec_drain(b0, full).0,
            out@ + spec_drain(board@, tiles_to_despawn@).1 == old(out)@ + spec_drain(b0, full).1,
        decreases tiles_to_despawn@.len(),
    {
        let ghost rem = tiles_to_despawn@;
        let ghost bprev = board@;
        let ghost out_before = out@;
        let idx = tiles_to_despawn.pop().unwrap();
        let mut taken: Option<Tile> = None;
        if let Some(cell) = board.get(idx) {
            taken = cell.tile;
        }
        if let Some(tile) = taken {
            board.set_cell(idx, Cell { tile: None });
            out.push(GameEvent::TileDestroyed { entity: tile.entity });
        }
        proof {
            assert(idx == rem.last());
            assert(tiles_to_despawn@ =~= rem.drop_last());
            assert(spec_drain(bprev, rem).0 == spec_drain(board@, tiles_to_despawn@).0);
            assert(out@ + spec_drain(board@, tiles_to_despawn@).1 =~= out_before + spec_drain(
                bprev,
                rem,
            ).1);
            assert(board_tiles_wf(board@));
        }
    }
    let ghost b1 = board@;
    proof {
        assert(b1 == spec_drain(b0, full).0);
        assert(out@ =~= old(out)@ + spec_drain(b0, full).1);
    }

    let mut col: usize = 0;
    while col < BOARD_WIDTH
        invariant
            col <= BOARD_WIDTH,
            well_sized(board@),
            board_tiles_wf(board@),
            forall|cc: int| 0 <= cc < col ==> #[trigger] col_compacted(b1, board@, cc),
            forall|r: int, cc: int|
                0 <= r < BOARD_HEIGHT && col <= cc < BOARD_WIDTH ==> #[trigger] cell_tile(
                    board@,
                    r,
                    cc,
                ) == cell_tile(b1, r, cc),
            out@ == old(out)@ + spec_drain(b0, full).1 + compact_all_events(b1, col as int),
            tiles_to_despawn@.len() == 0,
        decreases BOARD_WIDTH - col,
    {
        let ghost out_col_start = out@;
        let ghost b_col = board@;
        let mut e: usize = 0;
        let mut found_gap = false;
        while e < BOARD_VISIBLE_HEIGHT && !found_gap
            invariant
                e <= BOARD_VISIBLE_HEIGHT,
                !found_gap ==> forall|r: int|
                    0 <= r < e ==> (#[trigger] cell_tile(board@, r, col as int)) is Some,
                found_gap ==> e < BOARD_VISIBLE_HEIGHT && cell_tile(board@, e as int, col as int)
                    is None && forall|r: int|
                    0 <= r < e ==> (#[trigger] cell_tile(board@, r, col as int)) is Some,
            decreases BOARD_VISIBLE_HEIGHT - e + (if found_gap { 0int } else { 1int }),
        {
            if board.get(BoardIndex(e, col)).unwrap().tile.is_none() {
                found_gap = true;
            } else {
                e = e + 1;
            }
        }
        if found_gap {
            proof {
                assert forall|r: int| 0 <= r < e implies (#[trigger] cell_tile(
                    b1,
                    r,
                    col as int,
                )) is Some by {
                    assert(cell_tile(board@, r, col as int) == cell_tile(b1, r, col as int));
                    assert(cell_tile(board@, r, col as int) is Some);
                }
                assert(cell_tile(board@, e as int, col as int) == cell_tile(b1, e as int, col as int));
                assert(cell_tile(b1, e as int, col as int) is None);
                assert(col_has_visible_gap(b1, col as int));
                lemma_occ_full_prefix(b1, col as int, e as int);
                assert forall|k: int| 0 <= k < e implies #[trigger] cell_tile(
                    board@,
                    k,
                    col as int,
                ) == Some(
                    compact_tile(
                        occ_upto(b1, col as int, e as int)[k].1,
                        occ_upto(b1, col as int, e as int)[k].0,
                        k,
                        col as int,
                    ),
                ) by {
                    assert(occ_upto(b1, col as int, e as int)[k] == (
                        k,
                        cell_tile(b1, k, col as int)->Some_0,
                    ));
                    assert(cell_tile(board@, k, col as int) == cell_tile(b1, k, col as int));
                }
                lemma_compact_events_identity(
                    occ_upto(b1, col as int, e as int),
                    col as int,
                    e as int,
                );
                assert(out@ =~= out_col_start + compact_events_upto(
                    occ_upto(b1, col as int, e as int),
                    col as int,
                    e as int,
                ));
            }
            let mut le: usize = e;
            let mut row: usize = e;
            while row < BOARD_HEIGHT
                invariant
                    e <= le <= row,
                    row <= BOARD_HEIGHT,
                    well_sized(board@),
                    board_tiles_wf(board@),
                    le == occ_upto(b1, col as int, row as int).len(),
                    forall|r: int, cc: int|
                        0 <= r < BOARD_HEIGHT && 0 <= cc < BOARD_WIDTH && cc != col
                            ==> #[trigger] cell_tile(board@, r, cc) == cell_tile(b_col, r, cc),
                    forall|k: int|
                        0 <= k < le ==> #[trigger] cell_tile(board@, k, col as int) == Some(
                            compact_tile(
                                occ_upto(b1, col as int, row as int)[k].1,
                                occ_upto(b1, col as int, row as int)[k].0,
                                k,
                                col as int,
                            ),
                        ),
                    forall|k: int|
                        le <= k < row ==> (#[trigger] cell_tile(board@, k, col as int)) is None,
                    forall|k: int|
                        row <= k < BOARD_HEIGHT ==> #[trigger] cell_tile(board@, k, col as int)
                            == cell_tile(b1, k, col as int),
                    out@ == out_col_start + compact_events_upto(
                        occ_upto(b1, col as int, row as int),
                        col as int,
                        le as int,
                    ),
                decreases BOARD_HEIGHT - row,
            {
                let ghost occ_before = occ_upto(b1, col as int, row as int);
                let ghost bb = board@;
                let taken = board.get(BoardIndex(row, col)).unwrap().tile;
                proof {
                    assert(cell_tile(board@, row as int, col as int) == taken);
                    assert(cell_tile(b1, row as int, col as int) == taken);
                }
                if let Some(tile) = taken {
                    board.set_cell(BoardIndex(row, col), Cell { tile: None });
                    let ghost occ_next = occ_upto(b1, col as int, row as int + 1);
                    proof {
                        assert(occ_next =~= occ_before.push((row as int, tile)));
                        lemma_compact_events_prefix(occ_before, occ_next, col as int, le as int);
                    }
                    if le == row {
                        board.set_cell(BoardIndex(le, col), Cell { tile: Some(tile) });
                        proof {
                            assert(compact_events_upto(occ_next, col as int, le as int + 1)
                                =~= compact_events_upto(occ_next, col as int, le as int));
                        }
                    } else {
                        let target = board.get_cell_coord(BoardIndex(le, col));
                        let y_max = board.get_cell_coord(BoardIndex(BOARD_HEIGHT - 1, col)).y;
                        let new_tile = if row > le && tile.pos.y > target.y && tile.pos.y <= y_max {
                            Tile {
                                pos: Point { x: target.x, y: tile.pos.y },
                                state: TileState::Moving {
                                    from: BoardIndex(row, col),
                                    to: BoardIndex(le, col),
                                },
                                ..tile
                            }
                        } else {
                            Tile { pos: target, state: TileState::Idle, ..tile }
                        };
                        board.set_cell(BoardIndex(le, col), Cell { tile: Some(new_tile) });
                        out.push(
                            GameEvent::TileMoveTarget { entity: tile.entity, target },
                        );
                        proof {
                            assert(new_tile == compact_tile(
                                tile,
                                row as int,
                                le as int,
                                col as int,
                            ));
                            assert(tile_wf(new_tile, le as int, col as int));
                            assert(compact_events_upto(occ_next, col as int, le as int + 1)
                                =~= compact_events_upto(occ_next, col as int, le as int) + seq![
                                compact_move_event(tile, le as int, col as int),
                            ]);
                        }
                    }
                    proof {
                        assert forall|k: int| 0 <= k < le implies #[trigger] cell_tile(
                            board@,
                            k,
                            col as int,
                        ) == Some(
                            compact_tile(occ_next[k].1, occ_next[k].0, k, col as int),
                        ) by {
                            assert(occ_next[k] == occ_before[k]);
                            assert(cell_tile(board@, k, col as int) == cell_tile(
                                bb,
                                k,
                                col as int,
                            ));
                            assert(cell_tile(bb, k, col as int) == Some(
                                compact_tile(occ_before[k].1, occ_before[k].0, k, col as int),
                            ));
                        }
                        assert(occ_next[le as int] == (row as int, tile));
                        assert(cell_tile(board@, le as int, col as int) == Some(
                            compact_tile(tile, row as int, le as int, col as int),
                        ));
                        assert forall|k: int| le + 1 <= k < row + 1 implies (#[trigger] cell_tile(
                            board@,
                            k,
                            col as int,
                        )) is None by {
                            if k < row {
                                assert(cell_tile(board@, k, col as int) == cell_tile(
                                    bb,
                                    k,
                                    col as int,
                                ));
                            }
                        }
                        assert forall|k: int| row + 1 <= k < BOARD_HEIGHT implies #[trigger] cell_tile(
                            board@,
                            k,
                            col as int,
                        ) == cell_tile(b1, k, col as int) by {
                            assert(cell_tile(board@, k, col as int) == cell_tile(
                                bb,
                                k,
                                col as int,
                            ));
                        }
                    }
                    le = le + 1;
                } else {
                    proof {
                        assert(occ_upto(b1, col as int, row as int + 1) =~= occ_before);
                        assert(occ_upto(b1, col as int, row as int + 1) == occ_before);
                        assert(taken is None);
                    }
                }
                proof {
                    assert forall|r: int, cc: int|
                        0 <= r < BOARD_HEIGHT && 0 <= cc < BOARD_WIDTH && cc != col
                        implies #[trigger] cell_tile(board@, r, cc) == cell_tile(
                        b_col,
                        r,
                        cc,
                    ) by {
                        assert(cell_tile(board@, r, cc) == cell_tile(bb, r, cc));
                        assert(cell_tile(bb, r, cc) == cell_tile(b_col, r, cc));
                    }
                }
                row = row + 1;
            }
            proof {
                assert(col_compacted(b1, board@, col as int));
                assert(out@ =~= out_col_start + col_compact_events(b1, col as int));
            }
        } else {
            proof {
                assert forall|r: int| 0 <= r < BOARD_VISIBLE_HEIGHT implies (#[trigger] cell_tile(
                    b1,
                    r,
                    col as int,
                )) is Some by {
                    assert(cell_tile(board@, r, col as int) == cell_tile(b1, r, col as int));
                    assert(cell_tile(board@, r, col as int) is Some);
                }
                assert(!col_has_visible_gap(b1, col as int));
                assert(col_compacted(b1, board@, col as int));
                assert(out@ =~= out_col_start + col_compact_events(b1, col as int));
            }
        }
        proof {
            assert forall|cc: int| 0 <= cc < col implies #[trigger] col_compacted(
                b1,
                board@,
                cc,
            ) by {
                assert(col_compacted(b1, b_col, cc));
                assert forall|k: int| 0 <= k < BOARD_HEIGHT implies #[trigger] cell_tile(
                    board@,
                    k,
                    cc,
                ) == cell_tile(b_col, k, cc) by {}
                lemma_col_compacted_stable(b1, b_col, board@, cc);
            }
            assert forall|r: int, cc: int|
                0 <= r < BOARD_HEIGHT && col + 1 <= cc < BOARD_WIDTH implies #[trigger] cell_tile(
                board@,
                r,
                cc,
            ) == cell_tile(b1, r, cc) by {
                assert(cell_tile(board@, r, cc) == cell_tile(b_col, r, cc));
                assert(cell_tile(b_col, r, cc) == cell_tile(b1, r, cc));
            }
            assert(out@ =~= old(out)@ + spec_drain(b0, full).1 + compact_all_events(
                b1,
                col as int + 1,
            ));
        }
        col = col + 1;
    }
    proof {
        assert forall|r: int| 0 <= r < BOARD_HEIGHT implies #[trigger] board@[r] =~= compact_board(
            b1,
        )[r] by {
            assert forall|c: int| 0 <= c < BOARD_WIDTH implies #[trigger] board@[r][c]
                == (Cell { tile: compacted_cell(b1, r, c) }) by {
                assert(col_compacted(b1, board@, c));
                if col_has_visible_gap(b1, c) {
                    lemma_occ_len_bound(b1, c, BOARD_HEIGHT as int);
                    if r < col_occ(b1, c).len() {
                        assert(cell_tile(board@, r, c) == Some(
                            compact_tile(col_occ(b1, c)[r].1, col_occ(b1, c)[r].0, r, c),
                        ));
                    } else {
                        assert(cell_tile(board@, r, c) is None);
                    }
                }
                assert(cell_tile(board@, r, c) == compacted_cell(b1, r, c));
                assert(board@[r][c].tile == compacted_cell(b1, r, c));
            }
        }
        assert(board@ =~~= compact_board(b1));
    }
}

/// Relies on rand::rng and rand::RngExt::random_range: a value sampled
/// uniformly from `0..n`, which always lies below `n` (the call panics only
/// on an empty range, which `0 < n` rules out).
#[verifier::external_body]
fn random_below(n: u32) -> (r: u32)
    requires
        0 < n,
    ensures
        r < n,
{
    rand::RngExt::random_range(&mut rand::rng(), 0u32..n)
}

/// A tile kind drawn uniformly at random from the closed kind set.
pub fn random_form() -> Form {
    match random_below(KIND_COUNT) {
        0 => Form::Circle,
        1 => Form::Square,
        _ => Form::Triangle,
    }
}

/// The reservoir cell at `(r, c)` was refilled: a cell that held a tile is
/// untouched; an empty one now holds a resting tile at its centre.
pub open spec fn refilled(b0: Seq<Seq<Cell>>, b: Seq<Seq<Cell>>, r: int, c: int) -> bool {
    if cell_tile(b0, r, c) is Some {
        cell_tile(b, r, c) == cell_tile(b0, r, c)
    } else {
        &&& cell_tile(b, r, c) is Some
        &&& cell_tile(b, r, c)->Some_0.state is Idle
        &&& cell_tile(b, r, c)->Some_0.pos == cell_point(BoardIndex(r as usize, c as usize))
    }
}

/// The creation notification for the tile that now sits at `(r, c)`.
pub open spec fn created_event_of(b: Seq<Seq<Cell>>, r: int, c: int) -> GameEvent {
    let t = cell_tile(b, r, c)->Some_0;
    GameEvent::TileCreated {
        entity: t.entity,
        select_area_entity: t.select_area_entity,
        form: t.form,
        pos: t.pos,
    }
}

/// Refills the hidden reservoir: every empty reservoir cell receives a
/// freshly generated tile of uniformly random kind, resting at its cell's
/// centre and carrying newly assigned presentation handles. Visible rows
/// are untouched. The caller leaves the handle counter headroom for two
/// handles per reservoir cell.
#[verifier::loop_isolation(false)]
pub fn spawn_tiles(board: &mut Board, next_entity: &mut u64, out: &mut Vec<GameEvent>)
    requires
        well_sized(old(board)@),
        board_tiles_wf(old(board)@),
        *old(next_entity) <= u64::MAX - 200,
    ensures
        well_sized(final(board)@),
        board_tiles_wf(final(board)@),
        *final(next_entity) >= *old(next_entity),
        forall|r: int, c: int|
            0 <= r < BOARD_VISIBLE_HEIGHT && 0 <= c < BOARD_WIDTH ==> #[trigger] cell_tile(
                final(board)@,
                r,
                c,
            ) == cell_tile(old(board)@, r, c),
        forall|r: int, c: int|
            BOARD_VISIBLE_HEIGHT <= r < BOARD_HEIGHT && 0 <= c < BOARD_WIDTH
                ==> #[trigger] refilled(old(board)@, final(board)@, r, c),
        final(out)@.len() >= old(out)@.len(),
        forall|k: int|
            old(out)@.len() <= k < final(out)@.len() ==> (#[trigger] final(out)@[k]) is TileCreated,
        forall|k: int| 0 <= k < old(out)@.len() ==> #[trigger] final(out)@[k] == old(out)@[k],
        forall|r: int, c: int|
            BOARD_VISIBLE_HEIGHT <= r < BOARD_HEIGHT && 0 <= c < BOARD_WIDTH && (#[trigger] cell_tile(
                old(board)@,
                r,
                c,
            )) is None ==> exists|k: int|
                old(out)@.len() <= k < final(out)@.len() && #[trigger] final(out)@[k]
                    == created_event_of(final(board)@, r, c),
{
    let ghost b0 = board@;
    let mut col: usize = 0;
    while col < BOARD_WIDTH
        invariant
            col <= BOARD_WIDTH,
            well_sized(board@),
            board_tiles_wf(board@),
            *next_entity as int <= u64::MAX - 2 * (BOARD_WIDTH - col) * BOARD_VISIBLE_HEIGHT,
            *next_entity >= *old(next_entity),
            forall|r: int, c: int|
                0 <= r < BOARD_VISIBLE_HEIGHT && 0 <= c < BOARD_WIDTH ==> #[trigger] cell_tile(
                    board@,
                    r,
                    c,
                ) == cell_tile(b0, r, c),
            forall|r: int, c: int|
                BOARD_VISIBLE_HEIGHT <= r < BOARD_HEIGHT && 0 <= c < col
                    ==> #[trigger] refilled(b0, board@, r, c),
            forall|r: int, c: int|
                BOARD_VISIBLE_HEIGHT <= r < BOARD_HEIGHT && col <= c < BOARD_WIDTH
                    ==> #[trigger] cell_tile(board@, r, c) == cell_tile(b0, r, c),
            out@.len() >= old(out)@.len(),
            forall|k: int|
                old(out)@.len() <= k < out@.len() ==> (#[trigger] out@[k]) is TileCreated,
            forall|k: int| 0 <= k < old(out)@.len() ==> #[trigger] out@[k] == old(out)@[k],
            forall|r: int, c: int|
                BOARD_VISIBLE_HEIGHT <= r < BOARD_HEIGHT && 0 <= c < col && (#[trigger] cell_tile(
                    b0,
                    r,
                    c,
                )) is None ==> exists|k: int|
                    old(out)@.len() <= k < out@.len() && #[trigger] out@[k] == created_event_of(
                        board@,
                        r,
                        c,
                    ),
        decreases BOARD_WIDTH - col,
    {
        let mut row: usize = BOARD_VISIBLE_HEIGHT;
        while row < BOARD_HEIGHT
            invariant
                BOARD_VISIBLE_HEIGHT <= row <= BOARD_HEIGHT,
                col < BOARD_WIDTH,
                well_sized(board@),
                board_tiles_wf(board@),
                *next_entity as int <= u64::MAX - 2 * (BOARD_WIDTH - col - 1)
                    * BOARD_VISIBLE_HEIGHT - 2 * (BOARD_HEIGHT - row),
                *next_entity >= *old(next_entity),
                forall|r: int, c: int|
                    0 <= r < BOARD_VISIBLE_HEIGHT && 0 <= c < BOARD_WIDTH ==> #[trigger] cell_tile(
                        board@,
                        r,
                        c,
                    ) == cell_tile(b0, r, c),
                forall|r: int, c: int|
                    BOARD_VISIBLE_HEIGHT <= r < BOARD_HEIGHT && 0 <= c < col
                        ==> #[trigger] refilled(b0, board@, r, c),
                forall|r: int|
                    BOARD_VISIBLE_HEIGHT <= r < row ==> #[trigger] refilled(
                        b0,
                        board@,
                        r,
                        col as int,
                    ),
                forall|r: int|
                    row <= r < BOARD_HEIGHT ==> #[trigger] cell_tile(board@, r, col as int)
                        == cell_tile(b0, r, col as int),
                forall|r: int, c: int|
                    BOARD_VISIBLE_HEIGHT <= r < BOARD_HEIGHT && col < c < BOARD_WIDTH
                        ==> #[trigger] cell_tile(board@, r, c) == cell_tile(b0, r, c),
                out@.len() >= old(out)@.len(),
                forall|k: int|
                    old(out)@.len() <= k < out@.len() ==> (#[trigger] out@[k]) is TileCreated,
                forall|k: int| 0 <= k < old(out)@.len() ==> #[trigger] out@[k] == old(out)@[k],
                forall|r: int, c: int|
                    BOARD_VISIBLE_HEIGHT <= r < BOARD_HEIGHT && 0 <= c < col && (
                    #[trigger] cell_tile(b0, r, c)) is None ==> exists|k: int|
                        old(out)@.len() <= k < out@.len() && #[trigger] out@[k] == created_event_of(
                            board@,
                            r,
                            c,
                        ),
                forall|r: int|
                    BOARD_VISIBLE_HEIGHT <= r < row && (#[trigger] cell_tile(b0, r, col as int))
                        is None ==> exists|k: int|
                        old(out)@.len() <= k < out@.len() && #[trigger] out@[k] == created_event_of(
                            board@,
                            r,
                            col as int,
                        ),
            decreases BOARD_HEIGHT - row,
        {
            let ghost bb = board@;
            let ghost out_bb = out@;
            let empty = board.get(BoardIndex(row, col)).unwrap().tile.is_none();
            if empty {
                let form = random_form();
                let pos = board.get_cell_coord(BoardIndex(row, col));
                let select_area_entity = *next_entity;
                *next_entity = *next_entity + 1;
                let entity = *next_entity;
                *next_entity = *next_entity + 1;
                let tile = Tile {
                    form,
                    entity,
                    select_area_entity,
                    pos,
                    state: TileState::Idle,
                };
                board.set_cell(BoardIndex(row, col), Cell { tile: Some(tile) });
                out.push(
                    GameEvent::TileCreated { entity, select_area_entity, form, pos },
                );
                proof {
                    assert(tile_wf(tile, row as int, col as int));
                }
            }
            proof {
                assert forall|r: int, c: int|
                    0 <= r < BOARD_HEIGHT && 0 <= c < BOARD_WIDTH && !(r == row && c == col)
                    implies #[trigger] cell_tile(board@, r, c) == cell_tile(bb, r, c) by {}
                assert forall|r: int, c: int|
                    BOARD_VISIBLE_HEIGHT <= r < BOARD_HEIGHT && 0 <= c < BOARD_WIDTH && (c < col
                        || (c == col && r < row + 1)) && (#[trigger] cell_tile(b0, r, c)) is None
                    implies exists|k: int|
                        old(out)@.len() <= k < out@.len() && #[trigger] out@[k] == created_event_of(
                            board@,
                            r,
                            c,
                        ) by {
                    if r == row && c == col {
                        assert(out@[out@.len() - 1] == created_event_of(board@, r, c));
                    } else {
                        let k0 = choose|k: int|
                            old(out)@.len() <= k < out_bb.len() && out_bb[k] == created_event_of(
                                bb,
                                r,
                                c,
                            );
                        assert(out@[k0] == out_bb[k0]);
                        assert(created_event_of(board@, r, c) == created_event_of(bb, r, c));
                        assert(out@[k0] == created_event_of(board@, r, c));
                    }
                }
                assert forall|r: int, c: int|
                    BOARD_VISIBLE_HEIGHT <= r < BOARD_HEIGHT && 0 <= c < col
                    implies #[trigger] refilled(b0, board@, r, c) by {
                    assert(refilled(b0, bb, r, c));
                    assert(cell_tile(board@, r, c) == cell_tile(bb, r, c));
                }
                assert forall|r: int| BOARD_VISIBLE_HEIGHT <= r < row + 1 implies #[trigger] refilled(
                    b0,
                    board@,
                    r,
                    col as int,
                ) by {
                    if r < row {
                        assert(refilled(b0, bb, r, col as int));
                        assert(cell_tile(board@, r, col as int) == cell_tile(bb, r, col as int));
                    } else {
                        assert(cell_tile(bb, row as int, col as int) == cell_tile(
                            b0,
                            row as int,
                            col as int,
                        ));
                    }
                }
            }
            row = row + 1;
        }
        col = col + 1;
    }
}

/// Law: after a tick in which matches were despawned from a fully occupied
/// board and every column was compacted, no visible cell is left empty:
/// the reservoir above each column supplies enough tiles to close every gap
/// the despawn opened.
pub proof fn lemma_resolution_fills_visible(
    b0: Seq<Seq<Cell>>,
    pending: Seq<BoardIndex>,
    b2: Seq<Seq<Cell>>,
)
    requires
        well_sized(b0),
        forall|r: int, c: int|
            0 <= r < BOARD_HEIGHT && 0 <= c < BOARD_WIDTH ==> (#[trigger] cell_tile(b0, r, c))
                is Some,
        forall|i: int| 0 <= i < pending.len() ==> (#[trigger] pending[i]).0 < BOARD_VISIBLE_HEIGHT,
        forall|c: int|
            0 <= c < BOARD_WIDTH ==> #[trigger] col_compacted(spec_drain(b0, pending).0, b2, c),
    ensures
        forall|r: int, c: int|
            0 <= r < BOARD_VISIBLE_HEIGHT && 0 <= c < BOARD_WIDTH ==> (#[trigger] cell_tile(
                b2,
                r,
                c,
            )) is Some,
{
    let b1 = spec_drain(b0, pending).0;
    assert forall|r: int, c: int|
        0 <= r < BOARD_VISIBLE_HEIGHT && 0 <= c < BOARD_WIDTH implies (#[trigger] cell_tile(
        b2,
        r,
        c,
    )) is Some by {
        assert forall|k: int|
            BOARD_VISIBLE_HEIGHT <= k < BOARD_HEIGHT implies (#[trigger] cell_tile(b1, k, c))
                is Some by {
            lemma_drain_cells(b0, pending, k, c);
            if pending.contains(BoardIndex(k as usize, c as usize)) {
                let i = choose|i: int|
                    0 <= i < pending.len() && pending[i] == BoardIndex(k as usize, c as usize);
                assert(pending[i].0 < BOARD_VISIBLE_HEIGHT);
                assert(false);
            }
        }
        assert(col_compacted(b1, b2, c));
        if col_has_visible_gap(b1, c) {
            lemma_occ_count_from(b1, c, BOARD_VISIBLE_HEIGHT as int, BOARD_HEIGHT as int);
            assert(col_occ(b1, c).len() >= BOARD_VISIBLE_HEIGHT);
            assert(cell_tile(b2, r, c) == Some(
                compact_tile(col_occ(b1, c)[r].1, col_occ(b1, c)[r].0, r, c),
            ));
        } else {
            assert(cell_tile(b2, r, c) == cell_tile(b1, r, c));
            assert(cell_tile(b1, r, c) is Some);
        }
    }
}

} // verus!
