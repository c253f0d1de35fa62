use tile_match::board::{Board, BoardIndex, Cell, Form, Point, Tile, TileState};
use tile_match::events::GameEvent;
use tile_match::game::{run_if_has_tiles_to_despawn, setup, GameState};
use tile_match::motion::move_tiles;
use tile_match::resolve::{despawn_tiles, spawn_tiles};
use tile_match::scan::check_board_for_matching;
use tile_match::selection::{click_cell, handle_click, swap_tiles, Selection};
use tile_match::validate::{check_swapped_for_matching, has_local_match};

const PITCH: i64 = 77;
const ORIGIN: i64 = -385;

fn coord(row: usize, col: usize) -> Point {
    Point { x: ORIGIN + (col as i64) * PITCH, y: ORIGIN + (row as i64) * PITCH }
}

fn idle_tile(form: Form, entity: u64, row: usize, col: usize) -> Tile {
    Tile { form, entity, select_area_entity: entity + 10000, pos: coord(row, col), state: TileState::Idle }
}

fn kind3(v: usize) -> Form {
    match v % 3 {
        0 => Form::Circle,
        1 => Form::Square,
        _ => Form::Triangle,
    }
}

/// A full 20x10 board whose kind at (r, c) is `kind3(r + 2 * c)`: no row or
/// column anywhere holds three consecutive equal kinds.
fn patterned_board() -> Board {
    let mut board = Board::new();
    let mut entity: u64 = 1;
    for r in 0..20 {
        let mut row = Vec::new();
        for c in 0..10 {
            row.push(Cell { tile: Some(idle_tile(kind3(r + 2 * c), entity, r, c)) });
            entity += 1;
        }
        board.push_row(row);
    }
    board
}

fn game_from(board: Board) -> GameState {
    GameState {
        board,
        selection: Selection::new(),
        tiles_to_despawn: Vec::new(),
        pending_swap: None,
        score: 0,
        next_entity: 100000,
    }
}

/// Half-unit world coordinates of the centre of a visible cell, as the
/// input layer would hand them to the core.
fn click_at(row: usize, col: usize) -> (i64, i64) {
    let p = coord(row, col);
    (2 * p.x, 2 * p.y)
}

fn form_at(g: &GameState, row: usize, col: usize) -> Option<Form> {
    g.board.get(BoardIndex(row, col)).unwrap().tile.map(|t| t.form)
}

#[test]
fn cell_coordinates_are_monotonic_and_injective() {
    let board = patterned_board();
    let mut seen = Vec::new();
    for r in 0..20 {
        for c in 0..10 {
            let p = board.get_cell_coord(BoardIndex(r, c));
            assert_eq!(p, coord(r, c));
            assert!(!seen.contains(&p));
            seen.push(p);
        }
    }
    // increasing row strictly increases y, increasing column strictly increases x
    assert!(board.get_cell_coord(BoardIndex(1, 0)).y > board.get_cell_coord(BoardIndex(0, 0)).y);
    assert!(board.get_cell_coord(BoardIndex(0, 1)).x > board.get_cell_coord(BoardIndex(0, 0)).x);
    assert_eq!(board.get_cell_coord(BoardIndex(0, 0)), Point { x: -385, y: -385 });
    assert_eq!(board.get_cell_coord(BoardIndex(2, 3)), Point { x: -154, y: -231 });
}

#[test]
fn board_accessors_are_bounds_checked() {
    let board = patterned_board();
    assert!(board.get(BoardIndex(19, 9)).is_some());
    assert!(board.get(BoardIndex(20, 0)).is_none());
    assert!(board.get(BoardIndex(0, 10)).is_none());
    assert!(board.get_row(20).is_none());
    assert_eq!(board.get_row(3).unwrap().len(), 10);
    assert_eq!(board.width(), 10);
    assert_eq!(board.height(), 20);
    assert_eq!(board.visible_height(), 10);
    assert_eq!(board.cell_size(), 77);
    assert_eq!(board.tile_size(), 75);
    assert_eq!(board.border_width(), 2);
}

#[test]
fn moving_tile_settles_exactly_at_target() {
    let mut board = patterned_board();
    // a tile stored at (0, 1) gliding from (0, 0), i.e. rightward
    let mut tile = idle_tile(Form::Circle, 777, 0, 0);
    tile.state = TileState::Moving { from: BoardIndex(0, 0), to: BoardIndex(0, 1) };
    board.set_cell(BoardIndex(0, 1), Cell { tile: Some(tile) });

    move_tiles(&mut board, 30);
    let t1 = board.get(BoardIndex(0, 1)).unwrap().tile.unwrap();
    assert_eq!(t1.pos, Point { x: -355, y: -385 });
    assert!(matches!(t1.state, TileState::Moving { .. }));

    move_tiles(&mut board, 30);
    let t2 = board.get(BoardIndex(0, 1)).unwrap().tile.unwrap();
    assert_eq!(t2.state, TileState::Idle);
    assert_eq!(t2.pos, coord(0, 1));
    assert_eq!(t2.entity, 777);

    // idle tiles do not drift
    move_tiles(&mut board, 30);
    let t3 = board.get(BoardIndex(0, 1)).unwrap().tile.unwrap();
    assert_eq!(t3.pos, coord(0, 1));
    assert_eq!(t3.state, TileState::Idle);
}

#[test]
fn scan_finds_nothing_on_patterned_board() {
    let board = patterned_board();
    let mut score: u64 = 0;
    let mut pending = Vec::new();
    check_board_for_matching(&mut score, &board, &mut pending);
    assert_eq!(score, 0);
    assert!(pending.is_empty());
}

#[test]
fn scan_is_idempotent_on_unchanged_board() {
    let mut board = patterned_board();
    // plant one horizontal run of three circles at row 2, columns 0..3
    for c in 0..3 {
        board.set_cell(BoardIndex(2, c), Cell { tile: Some(idle_tile(Form::Circle, 900 + c as u64, 2, c)) });
    }
    let mut score1: u64 = 0;
    let mut pending1 = Vec::new();
    check_board_for_matching(&mut score1, &board, &mut pending1);
    let mut score2: u64 = 0;
    let mut pending2 = Vec::new();
    check_board_for_matching(&mut score2, &board, &mut pending2);
    assert_eq!(score1, score2);
    assert_eq!(pending1, pending2);
    assert_eq!(score1, 30);
}

#[test]
fn scan_aborts_line_on_moving_tile() {
    let mut board = patterned_board();
    // a run of three circles in row 0, but its third tile still gliding
    for c in 0..3 {
        let mut t = idle_tile(Form::Circle, 950 + c as u64, 0, c);
        if c == 2 {
            t.state = TileState::Moving { from: BoardIndex(1, 2), to: BoardIndex(0, 2) };
            t.pos = coord(1, 2);
        }
        board.set_cell(BoardIndex(0, c), Cell { tile: Some(t) });
    }
    let mut score: u64 = 0;
    let mut pending = Vec::new();
    check_board_for_matching(&mut score, &board, &mut pending);
    assert_eq!(score, 0);
    assert!(pending.is_empty());
}

#[test]
fn despawn_skips_duplicates_and_empty_cells() {
    let mut board = patterned_board();
    let entity = board.get(BoardIndex(5, 5)).unwrap().tile.unwrap().entity;
    let mut pending = vec![BoardIndex(5, 5), BoardIndex(5, 5), BoardIndex(4, 4)];
    // empty (4, 4) beforehand: despawning an empty cell is a no-op
    board.set_cell(BoardIndex(4, 4), Cell { tile: None });
    let mut out = Vec::new();
    despawn_tiles(&mut board, &mut pending, &mut out);
    assert!(pending.is_empty());
    let destroyed: Vec<&GameEvent> = out
        .iter()
        .filter(|e| matches!(e, GameEvent::TileDestroyed { .. }))
        .collect();
    assert_eq!(destroyed.len(), 1);
    assert!(matches!(destroyed[0], GameEvent::TileDestroyed { entity: e } if *e == entity));
}

#[test]
fn refill_fills_only_empty_reservoir_cells() {
    let mut board = patterned_board();
    board.set_cell(BoardIndex(15, 3), Cell { tile: None });
    board.set_cell(BoardIndex(19, 0), Cell { tile: None });
    board.set_cell(BoardIndex(2, 2), Cell { tile: None }); // visible: not refilled
    let kept = board.get(BoardIndex(12, 7)).unwrap().tile.unwrap().entity;
    let mut next_entity: u64 = 5000;
    let mut out = Vec::new();
    spawn_tiles(&mut board, &mut next_entity, &mut out);
    let t = board.get(BoardIndex(15, 3)).unwrap().tile.unwrap();
    assert_eq!(t.state, TileState::Idle);
    assert_eq!(t.pos, coord(15, 3));
    assert!(t.entity >= 5000);
    assert!(board.get(BoardIndex(19, 0)).unwrap().tile.is_some());
    assert!(board.get(BoardIndex(2, 2)).unwrap().tile.is_none());
    assert_eq!(board.get(BoardIndex(12, 7)).unwrap().tile.unwrap().entity, kept);
    assert_eq!(out.len(), 2);
    assert!(out.iter().all(|e| matches!(e, GameEvent::TileCreated { .. })));
}

#[test]
fn click_cell_maps_centres_and_rejects_outside() {
    assert_eq!(click_cell(2 * -385, 2 * -385), Some(BoardIndex(0, 0)));
    let (x, y) = click_at(3, 4);
    assert_eq!(click_cell(x, y), Some(BoardIndex(3, 4)));
    assert_eq!(click_cell(2 * 308, 2 * 308), Some(BoardIndex(9, 9)));
    // strictly outside the bordered area
    assert_eq!(click_cell(-847, 0), None);
    assert_eq!(click_cell(-848, 0), None);
    assert_eq!(click_cell(693, 0), None);
    assert_eq!(click_cell(0, 800), None);
}

#[test]
fn handle_click_records_selection() {
    let mut sel = Selection::new();
    let (x, y) = click_at(3, 4);
    handle_click(&mut sel, x, y);
    assert_eq!(sel.selected, Some(BoardIndex(3, 4)));
    assert_eq!(sel.last_selected, None);
    assert!(sel.to_unselect.is_empty());
    // a click outside the board changes nothing
    handle_click(&mut sel, 10000, 10000);
    assert_eq!(sel.selected, Some(BoardIndex(3, 4)));
}

#[test]
fn swap_tiles_requires_two_resting_tiles() {
    let mut board = patterned_board();
    board.set_cell(BoardIndex(0, 1), Cell { tile: None });
    let before = board.get(BoardIndex(0, 0)).unwrap().tile.unwrap().entity;
    let mut out = Vec::new();
    let swapped = swap_tiles(&mut board, BoardIndex(0, 0), BoardIndex(0, 1), &mut out);
    assert!(!swapped);
    assert!(out.is_empty());
    assert_eq!(board.get(BoardIndex(0, 0)).unwrap().tile.unwrap().entity, before);
}

#[test]
fn setup_builds_a_full_resting_board() {
    let mut out = Vec::new();
    let g = setup(&mut out);
    assert_eq!(g.score, 0);
    assert_eq!(out.len(), 200);
    for r in 0..20 {
        for c in 0..10 {
            let t = g.board.get(BoardIndex(r, c)).unwrap().tile.unwrap();
            assert_eq!(t.state, TileState::Idle);
            assert_eq!(t.pos, coord(r, c));
        }
    }
    assert!(!run_if_has_tiles_to_despawn(&g.tiles_to_despawn));
}

/// A row `[A, A, A, B, C, ...]` at row 2 despawns the three `A`s for 30
/// points; each emptied column compacts down by one and the reservoir
/// supplies one new tile per affected column.
#[test]
fn row_of_three_scores_thirty_and_columns_compact() {
    let mut board = patterned_board();
    board.set_cell(BoardIndex(2, 0), Cell { tile: Some(idle_tile(Form::Circle, 801, 2, 0)) });
    board.set_cell(BoardIndex(2, 1), Cell { tile: Some(idle_tile(Form::Circle, 802, 2, 1)) });
    board.set_cell(BoardIndex(2, 2), Cell { tile: Some(idle_tile(Form::Circle, 803, 2, 2)) });
    board.set_cell(BoardIndex(2, 3), Cell { tile: Some(idle_tile(Form::Square, 804, 2, 3)) });
    board.set_cell(BoardIndex(2, 4), Cell { tile: Some(idle_tile(Form::Triangle, 805, 2, 4)) });
    let tile_above = board.get(BoardIndex(3, 0)).unwrap().tile.unwrap().entity;
    let mut g = game_from(board);

    let mut out = Vec::new();
    g.tick(1, &mut out);

    assert_eq!(g.score, 30);
    assert!(g.tiles_to_despawn.is_empty());
    // the three A tiles are gone
    let destroyed: Vec<u64> = out
        .iter()
        .filter_map(|e| match e {
            GameEvent::TileDestroyed { entity } => Some(*entity),
            _ => None,
        })
        .collect();
    assert_eq!(destroyed.len(), 3);
    assert!(destroyed.contains(&801) && destroyed.contains(&802) && destroyed.contains(&803));
    // the column above each emptied cell compacted down by one
    let moved = g.board.get(BoardIndex(2, 0)).unwrap().tile.unwrap();
    assert_eq!(moved.entity, tile_above);
    assert_eq!(
        moved.state,
        TileState::Moving { from: BoardIndex(3, 0), to: BoardIndex(2, 0) }
    );
    // one new reservoir tile per affected column
    let created = out
        .iter()
        .filter(|e| matches!(e, GameEvent::TileCreated { .. }))
        .count();
    assert_eq!(created, 3);
    // no visible cell is left empty
    for r in 0..10 {
        for c in 0..10 {
            assert!(g.board.get(BoardIndex(r, c)).unwrap().tile.is_some());
        }
    }
}

/// Clicking (3,4) and then the non-adjacent (3,7) selects (3,7) and
/// deselects (3,4), with no swap and no score change.
#[test]
fn non_adjacent_second_click_moves_selection() {
    let mut g = game_from(patterned_board());
    let before_45 = form_at(&g, 3, 4);
    let before_7 = form_at(&g, 3, 7);

    let mut out = Vec::new();
    let (x1, y1) = click_at(3, 4);
    g.pointer_clicked(x1, y1, &mut out);
    assert_eq!(g.selection.selected, Some(BoardIndex(3, 4)));

    let (x2, y2) = click_at(3, 7);
    g.pointer_clicked(x2, y2, &mut out);
    assert_eq!(g.selection.selected, Some(BoardIndex(3, 7)));
    assert!(g.pending_swap.is_none());
    assert_eq!(form_at(&g, 3, 4), before_45);
    assert_eq!(form_at(&g, 3, 7), before_7);
    assert_eq!(g.score, 0);

    // the second click unhighlighted (3,4) and highlighted (3,7)
    let highlights: Vec<(bool, u64)> = out
        .iter()
        .filter_map(|e| match e {
            GameEvent::SelectionHighlight { visible, entity, .. } => Some((*visible, *entity)),
            _ => None,
        })
        .collect();
    assert!(highlights.len() >= 2);
    assert!(!highlights[highlights.len() - 2].0);
    assert!(highlights[highlights.len() - 1].0);
}

/// Clicking (3,4) then the adjacent (3,5) with differing kinds and no
/// resulting match swaps the tiles, lets them settle, then automatically
/// reverts, ending with the original arrangement and unchanged score.
#[test]
fn invalid_swap_reverts_to_original_arrangement() {
    let mut g = game_from(patterned_board());
    let form_a = form_at(&g, 3, 4).unwrap();
    let form_b = form_at(&g, 3, 5).unwrap();
    assert_ne!(form_a, form_b);

    let mut out = Vec::new();
    let (x1, y1) = click_at(3, 4);
    g.pointer_clicked(x1, y1, &mut out);
    let (x2, y2) = click_at(3, 5);
    g.pointer_clicked(x2, y2, &mut out);

    // the data model swapped instantly and a validation is pending
    assert_eq!(g.pending_swap, Some((BoardIndex(3, 4), BoardIndex(3, 5))));
    assert_eq!(form_at(&g, 3, 4), Some(form_b));
    assert_eq!(form_at(&g, 3, 5), Some(form_a));
    assert!(!has_local_match(&g.board, BoardIndex(3, 4)));
    assert!(!has_local_match(&g.board, BoardIndex(3, 5)));

    // one tick settles the swap (77 < 200) and the validator reverts it
    g.tick(200, &mut out);
    assert!(g.pending_swap.is_none());
    assert_eq!(form_at(&g, 3, 4), Some(form_a));
    assert_eq!(form_at(&g, 3, 5), Some(form_b));
    let t = g.board.get(BoardIndex(3, 4)).unwrap().tile.unwrap();
    assert!(matches!(t.state, TileState::Moving { .. }));

    // the revert animation settles; nothing else changes
    g.tick(200, &mut out);
    let t = g.board.get(BoardIndex(3, 4)).unwrap().tile.unwrap();
    assert_eq!(t.state, TileState::Idle);
    assert_eq!(t.pos, coord(3, 4));
    assert_eq!(g.score, 0);
    for r in 0..20 {
        for c in 0..10 {
            assert_eq!(form_at(&g, r, c), Some(kind3(r + 2 * c)));
        }
    }
}

/// Re-clicking the selected cell deselects it.
#[test]
fn clicking_selected_cell_deselects() {
    let mut g = game_from(patterned_board());
    let mut out = Vec::new();
    let (x, y) = click_at(3, 4);
    g.pointer_clicked(x, y, &mut out);
    assert_eq!(g.selection.selected, Some(BoardIndex(3, 4)));
    g.pointer_clicked(x, y, &mut out);
    assert_eq!(g.selection.selected, None);
    assert!(g.pending_swap.is_none());
}

/// A valid swap that makes a run of three keeps the swap and the next scan
/// resolves it.
#[test]
fn valid_swap_is_kept_and_scored() {
    let mut board = patterned_board();
    // column 6 rows 4 and 6 hold circles, (5,7) holds a circle: swapping
    // (5,7) into (5,6) completes a vertical run of three circles
    board.set_cell(BoardIndex(4, 6), Cell { tile: Some(idle_tile(Form::Circle, 901, 4, 6)) });
    board.set_cell(BoardIndex(6, 6), Cell { tile: Some(idle_tile(Form::Circle, 902, 6, 6)) });
    board.set_cell(BoardIndex(5, 6), Cell { tile: Some(idle_tile(Form::Square, 903, 5, 6)) });
    board.set_cell(BoardIndex(5, 7), Cell { tile: Some(idle_tile(Form::Circle, 904, 5, 7)) });
    // keep the surrounding cells free of accidental runs
    board.set_cell(BoardIndex(4, 7), Cell { tile: Some(idle_tile(Form::Square, 905, 4, 7)) });
    board.set_cell(BoardIndex(6, 7), Cell { tile: Some(idle_tile(Form::Triangle, 906, 6, 7)) });
    board.set_cell(BoardIndex(3, 6), Cell { tile: Some(idle_tile(Form::Triangle, 907, 3, 6)) });

    let mut score: u64 = 0;
    let mut pending = Vec::new();
    check_board_for_matching(&mut score, &board, &mut pending);
    assert_eq!(score, 0, "the prepared board must have no match before the swap");

    let mut g = game_from(board);
    let mut out = Vec::new();
    let (x1, y1) = click_at(5, 7);
    g.pointer_clicked(x1, y1, &mut out);
    let (x2, y2) = click_at(5, 6);
    g.pointer_clicked(x2, y2, &mut out);
    assert!(g.pending_swap.is_some());

    // settle the swap; the validator finds the vertical run and keeps it,
    // and the same tick's scan despawns and scores it
    g.tick(200, &mut out);
    assert_eq!(g.score, 30);
    assert_eq!(form_at(&g, 5, 7), Some(Form::Square));
    g.tick(200, &mut out);
    assert_eq!(g.score, 30);
}

#[test]
fn validator_waits_for_moving_tiles() {
    let mut g = game_from(patterned_board());
    let mut out = Vec::new();
    let (x1, y1) = click_at(3, 4);
    g.pointer_clicked(x1, y1, &mut out);
    let (x2, y2) = click_at(3, 5);
    g.pointer_clicked(x2, y2, &mut out);
    let swapped_form = form_at(&g, 3, 4);

    // while both tiles still glide, validation must not run
    check_swapped_for_matching(&mut g.board, &mut g.pending_swap, &mut out);
    assert!(g.pending_swap.is_some());
    assert_eq!(form_at(&g, 3, 4), swapped_form);
}

#[test]
fn board_swap_exchanges_tile_contents() {
    let mut board = patterned_board();
    let a = board.get(BoardIndex(1, 1)).unwrap().tile.unwrap();
    let b = board.get(BoardIndex(7, 8)).unwrap().tile.unwrap();
    board.swap(BoardIndex(1, 1), BoardIndex(7, 8));
    assert_eq!(board.get(BoardIndex(1, 1)).unwrap().tile.unwrap().entity, b.entity);
    assert_eq!(board.get(BoardIndex(7, 8)).unwrap().tile.unwrap().entity, a.entity);
    // the grid swap leaves motion state untouched; callers set it separately
    assert_eq!(board.get(BoardIndex(1, 1)).unwrap().tile.unwrap().state, TileState::Idle);
    // swapping back restores the arrangement
    board.swap(BoardIndex(1, 1), BoardIndex(7, 8));
    assert_eq!(board.get(BoardIndex(1, 1)).unwrap().tile.unwrap().entity, a.entity);
}

#[test]
fn clicking_empty_cell_clears_selection() {
    let mut board = patterned_board();
    board.set_cell(BoardIndex(2, 2), Cell { tile: None });
    let mut g = game_from(board);
    let mut out = Vec::new();
    let (x1, y1) = click_at(3, 4);
    g.pointer_clicked(x1, y1, &mut out);
    assert_eq!(g.selection.selected, Some(BoardIndex(3, 4)));
    let (x2, y2) = click_at(2, 2);
    g.pointer_clicked(x2, y2, &mut out);
    assert_eq!(g.selection.selected, None);
    assert!(g.pending_swap.is_none());
}

#[test]
fn board_corners_match_the_fixed_geometry() {
    let board = patterned_board();
    assert_eq!(board.bottom_left(), Point { x: -385, y: -385 });
    assert_eq!(board.top_right(), Point { x: 308, y: 308 });
}
