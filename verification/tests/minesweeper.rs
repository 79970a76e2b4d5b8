use boardgames::minesweeper::board::{Board, Cell, GameStatus, MINE_COUNT};

fn mines_at(positions: &[usize]) -> Board {
    let mut b = Board::new();
    for &i in positions {
        b.cells[i].is_mine = true;
    }
    b.compute_adjacency();
    b.initialized = true;
    b
}

#[test]
fn new_board_is_blank() {
    let b = Board::new();
    assert_eq!(b.cells.len(), 81);
    assert!(b.cells.iter().all(|c| *c == Cell::default()));
    assert_eq!(b.mine_count, MINE_COUNT);
    assert_eq!(b.status, GameStatus::Playing);
    assert!(!b.initialized);
}

#[test]
fn neighbors_in_block_order() {
    let b = Board::new();
    assert_eq!(b.neighbors(0, 0), vec![1, 9, 10]);
    assert_eq!(b.neighbors(4, 4), vec![30, 31, 32, 39, 41, 48, 49, 50]);
    assert_eq!(b.neighbors(8, 8), vec![70, 71, 79]);
    assert_eq!(b.neighbors(0, 4), vec![3, 5, 12, 13, 14]);
}

#[test]
fn adjacency_counts_mines_around() {
    let b = mines_at(&[0, 2, 10]);
    assert_eq!(b.cells[1].adjacent_mines, 3);
    assert_eq!(b.cells[9].adjacent_mines, 2);
    assert_eq!(b.cells[11].adjacent_mines, 2);
    assert_eq!(b.cells[20].adjacent_mines, 1);
    assert_eq!(b.cells[80].adjacent_mines, 0);
}

#[test]
fn mines_skip_the_safe_square() {
    let mut b = Board::new();
    // candidates 0..=3 with square 2 left out are squares 0, 1, 3, 4
    b.place_mines_from(2, &vec![0, 1, 2, 3]);
    let mines: Vec<usize> = (0..81).filter(|&i| b.cells[i].is_mine).collect();
    assert_eq!(mines, vec![0, 1, 3, 4]);
    assert_eq!(b.cells[2].adjacent_mines, 2);
}

#[test]
fn random_mines_never_under_the_first_reveal() {
    for first in [0usize, 40, 80] {
        let mut b = Board::new();
        b.reveal_cell(first);
        assert!(b.initialized);
        assert!(!b.cells[first].is_mine);
        assert!(b.cells[first].is_revealed);
        assert_eq!(b.cells.iter().filter(|c| c.is_mine).count(), MINE_COUNT);
        assert_ne!(b.status, GameStatus::Lost);
    }
}

#[test]
fn flood_fill_opens_the_empty_region() {
    // A wall of mines in column 4 splits the field.
    let mines: Vec<usize> = (0..9).map(|r| r * 9 + 4).collect();
    let mut b = mines_at(&mines);
    b.mine_count = 9;
    b.reveal_cell(0);
    for r in 0..9 {
        for c in 0..9 {
            let i = r * 9 + c;
            assert_eq!(b.cells[i].is_revealed, c < 4, "square {}", i);
        }
    }
    assert_eq!(b.revealed_count, 36);
    assert_eq!(b.status, GameStatus::Playing);
    b.reveal_cell(8);
    assert_eq!(b.revealed_count, 72);
    assert_eq!(b.status, GameStatus::Won);
}

#[test]
fn flags_stop_the_flood() {
    let mut b = mines_at(&[80]);
    b.mine_count = 1;
    b.toggle_flag(1);
    b.toggle_flag(9);
    b.toggle_flag(10);
    assert_eq!(b.flags_placed, 3);
    b.reveal_cell(0);
    assert_eq!(b.revealed_count, 1);
    assert!(!b.cells[1].is_revealed);
    // a flagged square cannot be revealed
    b.reveal_cell(1);
    assert!(!b.cells[1].is_revealed);
}

#[test]
fn numbered_square_opens_alone() {
    let mut b = mines_at(&[0]);
    b.reveal_cell(1);
    assert_eq!(b.revealed_count, 1);
    assert!(b.cells[1].is_revealed);
    assert!(!b.cells[2].is_revealed);
}

#[test]
fn hitting_a_mine_shows_all_mines() {
    let mut b = mines_at(&[5, 50, 77]);
    b.reveal_cell(50);
    assert_eq!(b.status, GameStatus::Lost);
    assert!(b.cells[5].is_revealed && b.cells[50].is_revealed && b.cells[77].is_revealed);
    assert!(!b.cells[0].is_revealed);
    assert_eq!(b.revealed_count, 0);
    // nothing changes after the game is over
    b.reveal_cell(0);
    b.toggle_flag(0);
    assert!(!b.cells[0].is_revealed && !b.cells[0].is_flagged);
}

#[test]
fn toggle_flag_twice_restores() {
    let mut b = Board::new();
    b.toggle_flag(7);
    assert!(b.cells[7].is_flagged);
    assert_eq!(b.flags_placed, 1);
    b.toggle_flag(7);
    assert!(!b.cells[7].is_flagged);
    assert_eq!(b.flags_placed, 0);
}

#[test]
fn check_win_needs_every_safe_square() {
    let mut b = Board::new();
    b.revealed_count = 70;
    b.check_win();
    assert_eq!(b.status, GameStatus::Playing);
    b.revealed_count = 71;
    b.check_win();
    assert_eq!(b.status, GameStatus::Won);
}

#[test]
fn reveal_after_loss_changes_nothing() {
    let mut b = mines_at(&[0]);
    b.reveal_cell(0);
    assert_eq!(b.status, GameStatus::Lost);
    let before = b.cells.clone();
    b.reveal_cell(5);
    assert_eq!(b.cells, before);
}

#[test]
fn counter_and_status_word() {
    let mut b = mines_at(&[0, 1]);
    b.mine_count = 2;
    assert_eq!(b.mines_remaining(), 2);
    assert_eq!(b.status_text(), "playing");
    b.toggle_flag(5);
    b.toggle_flag(6);
    b.toggle_flag(7);
    assert_eq!(b.mines_remaining(), -1);
    b.reveal_cell(0);
    assert_eq!(b.status_text(), "lost");
}
