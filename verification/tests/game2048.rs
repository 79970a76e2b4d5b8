use boardgames::game2048::board::{Board, SIZE};
use boardgames::game2048::grid::{handle_input, move_direction, process_line_left, Direction, GameState, InputAction};

// ---------------------------------------------------------------------------
// One line of the event-driven game
// ---------------------------------------------------------------------------

#[test]
fn merges_two_pairs_when_moving_left() {
    let line = [Some(2), Some(2), Some(2), Some(2)];
    let positions = [(0, 0), (0, 1), (0, 2), (0, 3)];

    let (new_line, moved, merged, changed, score_gain) = process_line_left(&line, &positions, false);

    assert_eq!(new_line, [Some(4), Some(4), None, None]);
    assert!(moved.is_empty());
    assert_eq!(merged.len(), 2);
    assert!(changed);
    assert_eq!(score_gain, 8);
}

#[test]
fn moves_and_merges_to_the_rightmost_slot() {
    let line = [Some(2), None, Some(2), None];
    let positions = [(0, 0), (0, 1), (0, 2), (0, 3)];

    let (new_line, moved, merged, changed, score_gain) = process_line_left(&line, &positions, true);

    assert_eq!(new_line, [None, None, None, Some(4)]);
    assert!(moved.is_empty());
    assert_eq!(merged, vec![(0, 2, 0, 0, 0, 3, 4)]);
    assert!(changed);
    assert_eq!(score_gain, 4);
}

#[test]
fn compresses_tiles_toward_bottom_without_false_merge() {
    let line = [Some(2), None, Some(4), None];
    let positions = [(0, 1), (1, 1), (2, 1), (3, 1)];

    let (new_line, moved, merged, changed, score_gain) = process_line_left(&line, &positions, true);

    assert_eq!(new_line, [None, None, Some(2), Some(4)]);
    assert_eq!(moved, vec![(2, 1, 3, 1, 4), (0, 1, 2, 1, 2)]);
    assert!(merged.is_empty());
    assert!(changed);
    assert_eq!(score_gain, 0);
}

#[test]
fn line_merges_each_tile_once_from_the_front() {
    let line = [Some(4), Some(4), Some(8), None];
    let positions = [(1, 0), (1, 1), (1, 2), (1, 3)];
    let (new_line, moved, merged, changed, gain) = process_line_left(&line, &positions, false);
    assert_eq!(new_line, [Some(8), Some(8), None, None]);
    assert_eq!(merged, vec![(1, 0, 1, 1, 1, 0, 8)]);
    assert_eq!(moved, vec![(1, 2, 1, 1, 8)]);
    assert!(changed);
    assert_eq!(gain, 8);
}

#[test]
fn packed_line_without_pairs_is_unchanged() {
    let line = [Some(2), Some(4), Some(8), Some(16)];
    let positions = [(0, 0), (0, 1), (0, 2), (0, 3)];
    let (new_line, moved, merged, changed, gain) = process_line_left(&line, &positions, false);
    assert_eq!(new_line, line);
    assert!(moved.is_empty());
    assert!(merged.is_empty());
    assert!(!changed);
    assert_eq!(gain, 0);
}

#[test]
fn three_equal_tiles_merge_the_pair_nearest_the_wall() {
    let line = [Some(2), Some(2), Some(2), None];
    let positions = [(0, 0), (0, 1), (0, 2), (0, 3)];
    let (new_line, moved, merged, _, gain) = process_line_left(&line, &positions, true);
    assert_eq!(new_line, [None, None, Some(2), Some(4)]);
    assert_eq!(merged, vec![(0, 2, 0, 1, 0, 3, 4)]);
    assert_eq!(moved, vec![(0, 0, 0, 2, 2)]);
    assert_eq!(gain, 4);
}

// ---------------------------------------------------------------------------
// The whole grid
// ---------------------------------------------------------------------------

fn state_with(grid: [[Option<u32>; 4]; 4]) -> GameState {
    let mut s = GameState::default();
    s.grid = grid;
    s
}

#[test]
fn default_state_is_empty() {
    let s = GameState::default();
    assert_eq!(s.grid, [[None; 4]; 4]);
    assert_eq!(s.score, 0);
    assert!(!s.game_over);
    assert!(!s.needs_sync);
    assert!(s.last_move.is_none());
    assert_eq!(s.empty_cells().len(), 16);
}

#[test]
fn empty_cells_are_listed_row_by_row() {
    let mut g = [[Some(2); 4]; 4];
    g[2][1] = None;
    g[0][3] = None;
    let s = state_with(g);
    assert_eq!(s.empty_cells(), vec![(0, 3), (2, 1)]);
}

#[test]
fn move_up_merges_a_column() {
    let mut g = [[None; 4]; 4];
    g[0][0] = Some(2);
    g[2][0] = Some(2);
    g[3][1] = Some(4);
    let mut s = state_with(g);
    let (moved, result) = move_direction(&mut s, Direction::Up);
    assert!(moved);
    assert_eq!(s.grid[0][0], Some(4));
    assert_eq!(s.grid[2][0], None);
    assert_eq!(s.grid[0][1], Some(4));
    assert_eq!(s.grid[3][1], None);
    assert_eq!(s.score, 4);
    assert_eq!(result.merged, vec![(0, 0, 2, 0, 0, 0, 4)]);
    assert_eq!(result.moved, vec![(3, 1, 0, 1, 4)]);
    assert!(result.spawned.is_empty());
}

#[test]
fn move_down_and_right_go_to_the_far_wall() {
    let mut g = [[None; 4]; 4];
    g[0][0] = Some(8);
    let mut s = state_with(g);
    let (moved, _) = move_direction(&mut s, Direction::Down);
    assert!(moved);
    assert_eq!(s.grid[3][0], Some(8));
    let (moved, result) = move_direction(&mut s, Direction::Right);
    assert!(moved);
    assert_eq!(s.grid[3][3], Some(8));
    assert_eq!(result.moved, vec![(3, 0, 3, 3, 8)]);
    assert_eq!(s.score, 0);
}

#[test]
fn move_against_the_wall_changes_nothing() {
    let mut g = [[None; 4]; 4];
    g[1][0] = Some(2);
    g[2][0] = Some(4);
    let mut s = state_with(g);
    let (moved, result) = move_direction(&mut s, Direction::Left);
    assert!(!moved);
    assert_eq!(s.grid, g);
    assert!(result.moved.is_empty());
    assert!(result.merged.is_empty());
}

#[test]
fn spawn_fills_an_empty_cell_with_two_or_four() {
    let mut g = [[Some(2); 4]; 4];
    g[1][2] = None;
    let mut s = state_with(g);
    let t = s.spawn_random_tile();
    let (r, c, v) = t.unwrap();
    assert_eq!((r, c), (1, 2));
    assert!(v == 2 || v == 4);
    assert_eq!(s.grid[1][2], Some(v));
    assert!(s.spawn_random_tile().is_none());
}

#[test]
fn game_over_only_when_full_and_no_equal_neighbours() {
    let mut g = [[None; 4]; 4];
    for r in 0..4 {
        for c in 0..4 {
            g[r][c] = Some(if (r + c) % 2 == 0 { 2 } else { 4 });
        }
    }
    let s = state_with(g);
    assert!(s.check_game_over());
    let mut g2 = g;
    g2[0][1] = Some(2);
    assert!(!state_with(g2).check_game_over());
    let mut g3 = g;
    g3[3][3] = None;
    assert!(!state_with(g3).check_game_over());
}

#[test]
fn process_move_records_and_spawns() {
    let mut g = [[None; 4]; 4];
    g[0][3] = Some(2);
    let mut s = state_with(g);
    let ended = s.process_move(Direction::Left);
    assert!(!ended);
    assert!(s.needs_sync);
    assert_eq!(s.grid[0][0], Some(2));
    let m = s.last_move.as_ref().unwrap();
    assert_eq!(m.moved, vec![(0, 3, 0, 0, 2)]);
    assert_eq!(m.spawned.len(), 1);
    let (r, c, v) = m.spawned[0];
    assert!((r, c) != (0, 0));
    assert_eq!(s.grid[r][c], Some(v));
    assert_eq!(s.empty_cells().len(), 14);
}

#[test]
fn process_move_that_moves_nothing_keeps_the_state() {
    let mut g = [[None; 4]; 4];
    g[0][0] = Some(2);
    let mut s = state_with(g);
    let ended = s.process_move(Direction::Up);
    assert!(!ended);
    assert!(!s.needs_sync);
    assert!(s.last_move.is_none());
    assert_eq!(s.grid, g);
}

#[test]
fn process_move_is_ignored_after_game_over() {
    let mut g = [[None; 4]; 4];
    g[0][3] = Some(2);
    let mut s = state_with(g);
    s.game_over = true;
    assert!(!s.process_move(Direction::Left));
    assert_eq!(s.grid, g);
}

#[test]
fn reset_clears_the_game() {
    let mut g = [[Some(2); 4]; 4];
    g[0][0] = None;
    let mut s = state_with(g);
    s.score = 100;
    s.game_over = true;
    s.reset();
    assert_eq!(s.grid, [[None; 4]; 4]);
    assert_eq!(s.score, 0);
    assert!(!s.game_over);
}

// ---------------------------------------------------------------------------
// The animated board
// ---------------------------------------------------------------------------

fn board_with(cells: [[u16; SIZE]; SIZE]) -> Board {
    Board { cells, score: 0 }
}

#[test]
fn new_board_has_two_small_tiles() {
    let b = Board::new();
    assert_eq!(b.score, 0);
    let tiles: Vec<u16> = b.cells.iter().flatten().copied().filter(|&v| v != 0).collect();
    assert_eq!(tiles.len(), 2);
    assert!(tiles.iter().all(|&v| v == 2 || v == 4));
}

#[test]
fn slide_left_merges_once_and_records() {
    let mut b = board_with([[2, 2, 2, 2], [0, 4, 0, 4], [2, 4, 8, 16], [0, 0, 0, 2]]);
    let (moved, info) = b.slide_left();
    assert!(moved);
    assert_eq!(b.cells, [[4, 4, 0, 0], [8, 0, 0, 0], [2, 4, 8, 16], [2, 0, 0, 0]]);
    assert_eq!(b.score, 4 + 4 + 8);
    assert_eq!(info.merges, vec![(4, 0, 0), (4, 0, 1), (8, 1, 0)]);
    assert!(info.slides.contains(&(2, 0, 1, 0, 0)));
    assert!(info.slides.contains(&(2, 3, 3, 3, 0)));
}

#[test]
fn slide_right_mirrors_slide_left() {
    let mut b = board_with([[2, 2, 4, 0], [0; 4], [0; 4], [0; 4]]);
    let (moved, info) = b.slide_right();
    assert!(moved);
    assert_eq!(b.cells[0], [0, 0, 4, 4]);
    assert_eq!(b.score, 4);
    assert_eq!(info.merges, vec![(4, 0, 2)]);
}

#[test]
fn slide_up_and_down_move_columns() {
    let mut b = board_with([[2, 0, 0, 0], [0, 0, 0, 0], [2, 0, 0, 0], [4, 0, 0, 0]]);
    let (moved, _) = b.slide_up();
    assert!(moved);
    assert_eq!([b.cells[0][0], b.cells[1][0], b.cells[2][0], b.cells[3][0]], [4, 4, 0, 0]);
    let (moved, _) = b.slide_down();
    assert!(moved);
    assert_eq!([b.cells[0][0], b.cells[1][0], b.cells[2][0], b.cells[3][0]], [0, 0, 0, 8]);
    assert_eq!(b.score, 4 + 8);
}

#[test]
fn slide_without_effect_reports_no_move() {
    let mut b = board_with([[2, 4, 0, 0], [8, 0, 0, 0], [0; 4], [0; 4]]);
    let before = b.cells;
    let (moved, info) = b.slide_left();
    assert!(!moved);
    assert_eq!(b.cells, before);
    assert!(info.merges.is_empty());
}

#[test]
fn can_move_and_has_won() {
    let full = [[2, 4, 2, 4], [4, 2, 4, 2], [2, 4, 2, 4], [4, 2, 4, 2]];
    assert!(!board_with(full).can_move());
    let mut pair = full;
    pair[3][3] = 4;
    assert!(board_with(pair).can_move());
    let mut hole = full;
    hole[1][1] = 0;
    assert!(board_with(hole).can_move());
    assert!(!board_with(full).has_won());
    let mut won = full;
    won[2][2] = 2048;
    assert!(board_with(won).has_won());
}

#[test]
fn add_random_tile_fills_the_only_hole() {
    let mut cells = [[2, 4, 2, 4], [4, 2, 4, 2], [2, 4, 2, 4], [4, 2, 4, 2]];
    cells[2][3] = 0;
    let mut b = board_with(cells);
    b.add_random_tile();
    assert!(b.cells[2][3] == 2 || b.cells[2][3] == 4);
    let before = b.cells;
    b.add_random_tile();
    assert_eq!(b.cells, before);
}

// ---------------------------------------------------------------------------
// The animated session
// ---------------------------------------------------------------------------

use boardgames::game2048::board::SlideInfo;
use boardgames::game2048::session::{build_anims, find_new_tile, Move, Session, TileAnim};

fn session_with(cells: [[u16; SIZE]; SIZE]) -> Session {
    Session { board: board_with(cells), game_over: false, won: false, keep_playing: false, best_score: 0 }
}

#[test]
fn animations_list_slides_then_merges() {
    let info = SlideInfo { slides: vec![(2, 0, 1, 0, 0)], merges: vec![(4, 0, 0)] };
    let anims = build_anims(&info);
    assert_eq!(
        anims,
        vec![
            TileAnim::Slide { value: 2, from_r: 0, from_c: 1, to_r: 0, to_c: 0 },
            TileAnim::Merge { value: 4, r: 0, c: 0 },
        ]
    );
}

#[test]
fn new_tile_is_the_one_no_animation_explains() {
    let mut b = board_with([[4, 0, 0, 2], [0; 4], [0; 4], [0; 4]]);
    b.score = 0;
    let info = SlideInfo { slides: vec![(2, 0, 1, 0, 0)], merges: vec![(4, 0, 0)] };
    assert_eq!(find_new_tile(&b, &info), Some((2, 0, 3)));
    let none = board_with([[4, 0, 0, 0], [0; 4], [0; 4], [0; 4]]);
    assert_eq!(find_new_tile(&none, &info), None);
}

#[test]
fn a_move_spawns_and_tracks_best() {
    let mut s = session_with([[2, 2, 0, 0], [0; 4], [0; 4], [0; 4]]);
    let turn = s.play(Move::Left).unwrap();
    assert_eq!(turn.prev_cells[0], [4, 0, 0, 0]);
    assert_eq!(turn.anims, vec![
        TileAnim::Slide { value: 2, from_r: 0, from_c: 1, to_r: 0, to_c: 0 },
        TileAnim::Merge { value: 4, r: 0, c: 0 },
    ]);
    let (v, r, c) = turn.spawned.unwrap();
    assert_eq!(s.board.cells[r][c], v);
    assert!((r, c) != (0, 0));
    assert_eq!(s.board.score, 4);
    assert_eq!(s.best_score, 4);
    // nothing moves against the wall
    let mut t = session_with([[2, 0, 0, 0], [0; 4], [0; 4], [0; 4]]);
    assert!(t.play(Move::Left).is_none());
    assert!(t.play(Move::Up).is_none());
}

#[test]
fn win_stops_moves_until_keep_playing() {
    let mut s = session_with([[1024, 1024, 0, 0], [0; 4], [0; 4], [0; 4]]);
    assert!(s.play(Move::Right).is_some());
    assert!(s.won);
    assert!(!s.accepts_moves());
    assert!(s.play(Move::Left).is_none());
    s.keep_playing = true;
    assert!(s.accepts_moves());
}

#[test]
fn keys_restart_or_move() {
    assert_eq!(handle_input(true, true, true, None), Some(InputAction::Restart));
    assert_eq!(handle_input(false, true, false, Some(Direction::Up)), None);
    assert_eq!(handle_input(false, false, true, Some(Direction::Up)), None);
    assert_eq!(handle_input(false, false, false, Some(Direction::Left)), Some(InputAction::Move(Direction::Left)));
    assert_eq!(handle_input(false, false, false, None), None);
}

#[test]
fn room_to_move_on_small_boards() {
    let mut s = Session::new();
    assert!(s.has_room());
    s.board.cells = [[32768, 32768, 0, 0], [0; 4], [0; 4], [0; 4]];
    assert!(!s.has_room());
    s.board.cells = [[2, 2, 0, 0], [0; 4], [0; 4], [0; 4]];
    s.board.score = u32::MAX;
    assert!(!s.has_room());
}

#[test]
fn restart_keeps_best_and_continue_needs_a_win() {
    let mut s = Session::new();
    s.best_score = 500;
    s.board.score = 300;
    s.game_over = true;
    s.restart();
    assert_eq!(s.best_score, 500);
    assert_eq!(s.board.score, 0);
    assert!(!s.game_over && !s.won && !s.keep_playing);
    assert_eq!(s.board.cells.iter().flatten().filter(|&&v| v != 0).count(), 2);
    s.keep_going();
    assert!(!s.keep_playing);
    s.won = true;
    s.keep_going();
    assert!(s.keep_playing && s.accepts_moves());
}

#[test]
fn every_direction_keeps_the_tile_total() {
    let mut g = [[None; 4]; 4];
    g[0] = [Some(2), Some(2), Some(4), Some(8)];
    g[1] = [Some(4), None, Some(4), Some(2)];
    g[2] = [None, Some(16), Some(16), Some(16)];
    g[3] = [Some(2), Some(4), Some(2), Some(4)];
    let total = |s: &GameState| -> u32 { s.grid.iter().flatten().map(|c| c.unwrap_or(0)).sum() };
    for dir in [Direction::Left, Direction::Right, Direction::Up, Direction::Down] {
        let mut s = state_with(g);
        let before = total(&s);
        move_direction(&mut s, dir);
        assert_eq!(total(&s), before);
    }
}

#[test]
fn a_movable_board_always_has_a_changing_slide() {
    let boards = [
        [[2, 0, 0, 0], [0, 0, 0, 0], [0, 0, 0, 0], [0, 0, 0, 0]],
        [[2, 4, 8, 16], [0, 0, 0, 0], [0, 0, 0, 0], [0, 0, 0, 0]],
        [[2, 4, 2, 4], [4, 2, 4, 2], [2, 4, 2, 4], [4, 2, 4, 4]],
        [[2, 4, 2, 4], [4, 2, 4, 2], [2, 4, 2, 4], [2, 8, 16, 32]],
    ];
    for cells in boards {
        assert!(board_with(cells).can_move());
        let mut left = board_with(cells);
        let mut right = board_with(cells);
        let mut up = board_with(cells);
        let mut down = board_with(cells);
        let moved = left.slide_left().0 || right.slide_right().0 || up.slide_up().0 || down.slide_down().0;
        assert!(moved);
    }
}

#[test]
fn slide_packs_tiles_and_scores_the_merges() {
    let mut b = board_with([[2, 0, 2, 4], [0, 0, 0, 0], [8, 8, 8, 8], [0, 4, 0, 4]]);
    let (moved, info) = b.slide_left();
    assert!(moved);
    assert_eq!(b.cells, [[4, 4, 0, 0], [0, 0, 0, 0], [16, 16, 0, 0], [8, 0, 0, 0]]);
    // Nine tiles before, four merges, five tiles after.
    let tiles_after = b.cells.iter().flatten().filter(|&&v| v != 0).count();
    assert_eq!(tiles_after + info.merges.len(), 9);
    let merged: u32 = info.merges.iter().map(|m| m.0 as u32).sum();
    assert_eq!(b.score, merged);
    assert_eq!(b.score, 4 + 16 + 16 + 8);
}
