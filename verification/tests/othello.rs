use boardgames::othello::logic::{
    advance_turn, begin_placement, can_flip, count_stones, finish_turn, get_flips, get_valid_moves,
    is_game_over, place_stone, play_click, step_flip, Board, TurnOutcome, ValidMoves,
};
use boardgames::othello::minimax::{ai_move, best_move, easy_move, evaluate, minimax, search_best};
use boardgames::othello::state::{AiDifficulty, CurrentTurn, GameMode, GameResult, Player};

use Player::{Black, White};

fn empty_board() -> Board {
    Board { cells: [[None; 8]; 8] }
}

/// Plain minimax without pruning, written out independently.
fn naive(board: &Board, depth: u8, maximizing: bool, ai: Player) -> i32 {
    let current = if maximizing { ai } else { ai.opponent() };
    let moves = get_valid_moves(board, current);
    if depth == 0 || (moves.is_empty() && get_valid_moves(board, current.opponent()).is_empty()) {
        return evaluate(board, ai);
    }
    if moves.is_empty() {
        return naive(board, depth, !maximizing, ai);
    }
    let values = moves.iter().map(|&(r, c)| {
        let mut b = *board;
        place_stone(&mut b, r, c, current);
        naive(&b, depth - 1, !maximizing, ai)
    });
    if maximizing {
        values.max().unwrap()
    } else {
        values.min().unwrap()
    }
}

#[test]
fn start_position() {
    let b = Board::new();
    assert_eq!(b.cells[3][3], Some(White));
    assert_eq!(b.cells[3][4], Some(Black));
    assert_eq!(b.cells[4][3], Some(Black));
    assert_eq!(b.cells[4][4], Some(White));
    assert_eq!(count_stones(&b), (2, 2));
    assert_eq!(get_valid_moves(&b, Black), vec![(2, 3), (3, 2), (4, 5), (5, 4)]);
    assert_eq!(get_valid_moves(&b, White), vec![(2, 4), (3, 5), (4, 2), (5, 3)]);
    assert!(!is_game_over(&b));
    assert_eq!(evaluate(&b, Black), 0);
}

#[test]
fn opponent_and_difficulty() {
    assert_eq!(Black.opponent(), White);
    assert_eq!(White.opponent(), Black);
    assert_eq!(AiDifficulty::Easy.depth(), 2);
    assert_eq!(AiDifficulty::Normal.depth(), 4);
    assert_eq!(AiDifficulty::Hard.depth(), 6);
    assert_eq!(AiDifficulty::Easy.label(), "쉬움");
    assert_eq!(AiDifficulty::Normal.label(), "보통");
    assert_eq!(AiDifficulty::Hard.label(), "어려움");
    assert_eq!(AiDifficulty::default(), AiDifficulty::Normal);
}

#[test]
fn flips_follow_each_direction_nearest_first() {
    let mut b = empty_board();
    b.cells[0][0] = Some(Black);
    b.cells[1][1] = Some(White);
    b.cells[2][2] = Some(White);
    b.cells[3][6] = Some(Black);
    b.cells[3][5] = Some(White);
    b.cells[3][4] = Some(White);
    // a run that is not closed by a black stone turns nothing
    b.cells[4][3] = Some(White);
    assert!(can_flip(&b, 3, 3, Black));
    assert_eq!(get_flips(&b, 3, 3, Black), vec![(2, 2), (1, 1), (3, 4), (3, 5)]);
    assert!(!can_flip(&b, 7, 7, Black));
    assert!(get_flips(&b, 7, 7, Black).is_empty());
}

#[test]
fn place_stone_turns_flanked_runs_only() {
    let mut b = Board::new();
    place_stone(&mut b, 2, 3, Black);
    assert_eq!(b.cells[2][3], Some(Black));
    assert_eq!(b.cells[3][3], Some(Black));
    assert_eq!(b.cells[4][4], Some(White));
    assert_eq!(count_stones(&b), (4, 1));
}

#[test]
fn queued_flips_end_in_the_placed_board() {
    let start = Board::new();
    let mut direct = start;
    place_stone(&mut direct, 5, 4, Black);
    let mut animated = start;
    let mut queue = begin_placement(&mut animated, 5, 4, Black);
    assert_eq!(queue.flips.len(), 1);
    assert_eq!(animated.cells[4][4], Some(White));
    let done = step_flip(&mut animated, &mut queue);
    assert!(done);
    assert_eq!(animated.cells, direct.cells);
    assert!(step_flip(&mut animated, &mut queue));
    assert_eq!(animated.cells, direct.cells);
}

#[test]
fn full_board_ends_the_game() {
    let mut b = empty_board();
    for r in 0..8 {
        for c in 0..8 {
            b.cells[r][c] = Some(if r < 5 { Black } else { White });
        }
    }
    assert!(is_game_over(&b));
    assert_eq!(count_stones(&b), (40, 24));
    let mut vm = ValidMoves(vec![]);
    let mut turn = CurrentTurn(Black);
    match finish_turn(&b, &mut vm, &mut turn) {
        TurnOutcome::Over(res) => {
            assert_eq!(res.black_score, 40);
            assert_eq!(res.white_score, 24);
        }
        _ => panic!("the game should be over"),
    }
}

#[test]
fn turn_passes_when_the_opponent_cannot_move() {
    // White has no move; Black still has one.
    let mut b = empty_board();
    b.cells[0][0] = Some(Black);
    b.cells[0][1] = Some(White);
    let mut vm = ValidMoves::default();
    let mut turn = CurrentTurn(Black);
    let pass = advance_turn(&b, &mut vm, &mut turn);
    assert_eq!(pass.map(|e| e.0), Some(White));
    assert_eq!(turn.0, Black);
    assert_eq!(vm.0, vec![(0, 2)]);

    let mut turn = CurrentTurn(White);
    let pass = advance_turn(&b, &mut vm, &mut turn);
    assert!(pass.is_none());
    assert_eq!(turn.0, Black);
    assert_eq!(vm.0, vec![(0, 2)]);

    let mut turn = CurrentTurn(Black);
    assert!(matches!(finish_turn(&b, &mut vm, &mut turn), TurnOutcome::Passed(_)));
}

#[test]
fn clicks_are_checked_against_the_valid_moves() {
    let mut b = Board::new();
    let vm = ValidMoves(get_valid_moves(&b, Black));
    let turn = CurrentTurn(Black);
    assert!(play_click(&mut b, &vm, &turn, GameMode::PvP, Some((0, 0))).is_none());
    assert!(play_click(&mut b, &vm, &turn, GameMode::PvP, None).is_none());
    assert_eq!(b.cells, Board::new().cells);
    let q = play_click(&mut b, &vm, &turn, GameMode::PvP, Some((3, 2))).unwrap();
    assert_eq!(b.cells[3][2], Some(Black));
    assert_eq!(q.flips.iter().copied().collect::<Vec<_>>(), vec![(3, 3)]);
    assert_eq!(q.player, Black);

    let mut b2 = Board::new();
    let white_turn = CurrentTurn(White);
    let vm2 = ValidMoves(get_valid_moves(&b2, White));
    assert!(play_click(&mut b2, &vm2, &white_turn, GameMode::PvAI, Some((2, 4))).is_none());
}

#[test]
fn evaluation_counts_weights_and_mobility() {
    let mut b = empty_board();
    b.cells[0][0] = Some(White);
    b.cells[1][1] = Some(Black);
    // White: corner 100, Black's -45 square counted against White: +45.
    // White can play (2, 2), Black has no move: five more for White.
    assert_eq!(evaluate(&b, White), 100 + 45 + 5);
    assert_eq!(evaluate(&b, Black), -150);
}

#[test]
fn pruned_search_matches_plain_minimax() {
    let mut b = Board::new();
    place_stone(&mut b, 2, 3, Black);
    place_stone(&mut b, 2, 2, White);
    for depth in 0..4u8 {
        for &maximizing in &[true, false] {
            assert_eq!(
                minimax(&b, depth, i32::MIN, i32::MAX, maximizing, White),
                naive(&b, depth, maximizing, White)
            );
        }
    }
}

#[test]
fn search_prefers_the_corner() {
    let mut b = empty_board();
    b.cells[0][1] = Some(Black);
    b.cells[0][2] = Some(White);
    b.cells[5][5] = Some(Black);
    b.cells[6][6] = Some(White);
    let choice = search_best(&b, White, 1).unwrap();
    assert_eq!(choice, (0, 0));
    assert_eq!(best_move(&b, White, AiDifficulty::Normal).map(|m| get_valid_moves(&b, White).contains(&m)), Some(true));
    let easy = best_move(&b, White, AiDifficulty::Easy).unwrap();
    assert!(get_valid_moves(&b, White).contains(&easy));
    assert!(best_move(&empty_board(), White, AiDifficulty::Hard).is_none());
}

#[test]
fn ai_moves_only_for_white_against_the_computer() {
    let mut b = Board::new();
    let before = b.cells;
    assert!(ai_move(&mut b, GameMode::PvP, &CurrentTurn(White), AiDifficulty::Normal).is_none());
    assert!(ai_move(&mut b, GameMode::PvAI, &CurrentTurn(Black), AiDifficulty::Normal).is_none());
    assert_eq!(b.cells, before);
    let q = ai_move(&mut b, GameMode::PvAI, &CurrentTurn(White), AiDifficulty::Normal).expect("white has moves");
    assert_eq!(q.player, White);
    assert_eq!(q.flips.len(), 1);
    // the new stone is down; the flip is queued, not yet applied
    assert_eq!(count_stones(&b), (2, 3));
}

#[test]
fn more_stones_win() {
    assert_eq!(GameResult { black_score: 40, white_score: 24 }.winner(), Some(Black));
    assert_eq!(GameResult { black_score: 10, white_score: 54 }.winner(), Some(White));
    assert_eq!(GameResult { black_score: 32, white_score: 32 }.winner(), None);
}

#[test]
fn easy_level_plays_the_drawn_move_or_a_short_search() {
    let b = Board::new();
    let moves = get_valid_moves(&b, Black);
    for (i, m) in moves.iter().enumerate() {
        assert_eq!(easy_move(&b, Black, true, i), Some(*m));
    }
    assert_eq!(easy_move(&b, Black, false, 0), search_best(&b, Black, 2));
    assert_eq!(easy_move(&empty_board(), Black, true, 3), None);
}
