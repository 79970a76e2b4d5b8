use boardgames::minesweeper::field::{
    number_colour_index, process_restart, square_label, square_tint, Field, FlagCell, FlagCount,
    GameConfig, GameOver, GameState, Label, RevealCell, Square, Tint,
};

/// A field of the given size with mines on `mines`, laid through the
/// library so that every square carries its count.
fn field_with(cols: u32, rows: u32, mines: &[(u32, u32)]) -> Field {
    let mut f = Field::new(cols, rows);
    let chosen: Vec<(u32, u32)> = mines.to_vec();
    f.lay_mines(&chosen, mines.len() as u32);
    f
}

fn revealed(f: &Field) -> usize {
    f.squares.iter().flatten().filter(|s| s.revealed).count()
}

#[test]
fn default_config_is_nine_by_nine_with_ten_mines() {
    let c = GameConfig::default();
    assert_eq!((c.cols, c.rows, c.mine_count), (9, 9, 10));
}

#[test]
fn new_field_is_covered_and_empty() {
    let f = Field::new(4, 3);
    assert_eq!(f.squares.len(), 4);
    assert!(f.squares.iter().all(|col| col.len() == 3));
    assert!(f.squares.iter().flatten().all(|s| s.covered && !s.mine && !s.revealed));
    assert!(!f.mines_initialized);
}

#[test]
fn laying_mines_writes_counts() {
    let f = field_with(3, 3, &[(0, 0), (2, 2)]);
    assert!(f.squares[0][0].mine && f.squares[2][2].mine);
    assert_eq!(f.squares[1][1].adjacent, 2);
    assert_eq!(f.squares[1][0].adjacent, 1);
    assert_eq!(f.squares[0][2].adjacent, 0);
    assert_eq!(f.squares[0][0].adjacent, 0);
}

#[test]
fn first_click_is_never_a_mine_and_lays_all_mines() {
    for _ in 0..20 {
        let mut f = Field::new(9, 9);
        let over = f.handle_reveal(&RevealCell { col: 4, row: 4 }, 10);
        assert_eq!(over, None);
        assert!(f.mines_initialized);
        assert!(!f.squares[4][4].mine);
        assert!(f.squares[4][4].revealed);
        let mines = f.squares.iter().flatten().filter(|s| s.mine).count();
        assert_eq!(mines, 10);
    }
}

#[test]
fn first_click_on_a_full_field_lays_every_other_square() {
    let mut f = Field::new(2, 2);
    let over = f.handle_reveal(&RevealCell { col: 0, row: 0 }, 10);
    assert_eq!(over, None);
    assert!(!f.squares[0][0].mine);
    assert_eq!(f.squares.iter().flatten().filter(|s| s.mine).count(), 3);
    assert_eq!(f.squares[0][0].adjacent, 3);
    assert_eq!(revealed(&f), 1);
}

#[test]
fn clicking_an_empty_region_floods_it() {
    // one mine in a corner of a 4x4 field
    let mut f = field_with(4, 4, &[(3, 3)]);
    let over = f.handle_reveal(&RevealCell { col: 0, row: 0 }, 1);
    assert_eq!(over, None);
    // every square but the mine opens
    assert_eq!(revealed(&f), 15);
    assert!(!f.squares[3][3].revealed);
    assert!(f.check_win(1).is_some());
}

#[test]
fn flood_stops_at_numbers_and_flags() {
    // mines along column 2 split the field
    let mut f = field_with(5, 3, &[(2, 0), (2, 1), (2, 2)]);
    f.handle_flag(&FlagCell { col: 0, row: 2 }, &mut FlagCount(0));
    let over = f.handle_reveal(&RevealCell { col: 0, row: 0 }, 3);
    assert_eq!(over, None);
    // column 0 has no mine around, column 1 shows numbers, column 3 and 4 stay shut
    assert!(f.squares[0][0].revealed && f.squares[0][1].revealed);
    assert!(!f.squares[0][2].revealed && f.squares[0][2].flagged);
    assert!(f.squares[1][0].revealed && f.squares[1][1].revealed && f.squares[1][2].revealed);
    assert!(f.squares[3].iter().chain(f.squares[4].iter()).all(|s| !s.revealed));
}

#[test]
fn clicking_a_number_opens_only_it() {
    let mut f = field_with(3, 3, &[(0, 0)]);
    f.handle_reveal(&RevealCell { col: 1, row: 1 }, 1);
    assert_eq!(revealed(&f), 1);
    assert!(f.squares[1][1].revealed);
}

#[test]
fn clicking_a_mine_loses_and_opens_it_alone() {
    let mut f = field_with(3, 3, &[(1, 1)]);
    let over = f.handle_reveal(&RevealCell { col: 1, row: 1 }, 1);
    assert_eq!(over, Some(GameOver { won: false }));
    assert!(f.squares[1][1].revealed && !f.squares[1][1].covered);
    assert_eq!(revealed(&f), 1);
}

#[test]
fn flagged_square_ignores_left_click() {
    let mut f = field_with(3, 3, &[(1, 1)]);
    let mut flags = FlagCount(0);
    f.handle_flag(&FlagCell { col: 1, row: 1 }, &mut flags);
    let over = f.handle_reveal(&RevealCell { col: 1, row: 1 }, 1);
    assert_eq!(over, None);
    assert!(!f.squares[1][1].revealed);
}

#[test]
fn questioned_square_can_be_opened() {
    let mut f = field_with(3, 3, &[(0, 0)]);
    let mut flags = FlagCount(0);
    f.handle_flag(&FlagCell { col: 2, row: 2 }, &mut flags);
    f.handle_flag(&FlagCell { col: 2, row: 2 }, &mut flags);
    assert!(f.squares[2][2].questioned);
    f.handle_reveal(&RevealCell { col: 2, row: 2 }, 1);
    assert!(f.squares[2][2].revealed);
}

#[test]
fn right_clicks_cycle_flag_question_covered() {
    let mut f = Field::new(2, 2);
    let mut flags = FlagCount(0);
    let ev = FlagCell { col: 1, row: 0 };
    f.handle_flag(&ev, &mut flags);
    assert!(f.squares[1][0].flagged);
    assert_eq!(flags.0, 1);
    f.handle_flag(&ev, &mut flags);
    assert!(!f.squares[1][0].flagged && f.squares[1][0].questioned);
    assert_eq!(flags.0, 0);
    f.handle_flag(&ev, &mut flags);
    assert!(!f.squares[1][0].questioned && f.squares[1][0].covered);
    assert_eq!(flags.0, 0);
}

#[test]
fn flag_counter_saturates() {
    let mut f = Field::new(1, 1);
    let mut flags = FlagCount(u32::MAX);
    f.handle_flag(&FlagCell { col: 0, row: 0 }, &mut flags);
    assert_eq!(flags.0, u32::MAX);
    let mut g = Field::new(1, 1);
    g.squares[0][0].flagged = true;
    let mut none = FlagCount(0);
    g.handle_flag(&FlagCell { col: 0, row: 0 }, &mut none);
    assert_eq!(none.0, 0);
}

#[test]
fn revealed_square_without_marks_ignores_right_click() {
    let mut f = field_with(2, 2, &[]);
    f.handle_reveal(&RevealCell { col: 0, row: 0 }, 0);
    let before = f.squares[0][0];
    let mut flags = FlagCount(3);
    f.handle_flag(&FlagCell { col: 0, row: 0 }, &mut flags);
    assert_eq!(f.squares[0][0], before);
    assert_eq!(flags.0, 3);
}

#[test]
fn win_needs_every_safe_square() {
    let mut f = field_with(2, 1, &[(1, 0)]);
    assert_eq!(f.check_win(1), None);
    f.handle_reveal(&RevealCell { col: 0, row: 0 }, 1);
    assert_eq!(f.check_win(1), Some(GameOver { won: true }));
}

#[test]
fn losing_shows_covered_mines_and_drops_marks() {
    let mut f = field_with(3, 1, &[(0, 0), (2, 0)]);
    let mut flags = FlagCount(0);
    f.handle_flag(&FlagCell { col: 2, row: 0 }, &mut flags);
    let next = f.handle_game_over_board(GameOver { won: false });
    assert_eq!(next, GameState::Lost);
    for c in [0usize, 2] {
        let s = f.squares[c][0];
        assert!(s.revealed && !s.covered && !s.flagged && !s.questioned);
    }
    assert!(f.squares[1][0].covered && !f.squares[1][0].revealed);
}

#[test]
fn winning_changes_no_square() {
    let mut f = field_with(3, 1, &[(0, 0)]);
    let before = f.squares.clone();
    assert_eq!(f.handle_game_over_board(GameOver { won: true }), GameState::Won);
    assert_eq!(f.squares, before);
}

#[test]
fn restart_clears_flags() {
    let mut flags = FlagCount(7);
    assert_eq!(process_restart(&mut flags), GameState::Setup);
    assert_eq!(flags.0, 0);
}

#[test]
fn square_looks() {
    let covered = Square { mine: false, covered: true, revealed: false, flagged: false, questioned: false, adjacent: 0 };
    assert_eq!(square_tint(&covered), Tint::Covered);
    assert_eq!(square_label(&covered), Label::Blank);
    let flagged = Square { flagged: true, ..covered };
    assert_eq!(square_tint(&flagged), Tint::Flagged);
    assert_eq!(square_label(&flagged), Label::FlagIcon);
    let asked = Square { questioned: true, ..covered };
    assert_eq!(square_tint(&asked), Tint::Covered);
    assert_eq!(square_label(&asked), Label::QuestionIcon);
    let three = Square { covered: false, revealed: true, adjacent: 3, ..covered };
    assert_eq!(square_tint(&three), Tint::Revealed);
    assert_eq!(square_label(&three), Label::Number(3));
    let mine = Square { mine: true, covered: false, revealed: true, ..covered };
    assert_eq!(square_tint(&mine), Tint::Mine);
    assert_eq!(square_label(&mine), Label::MineIcon);
    assert_eq!(number_colour_index(1), 0);
    assert_eq!(number_colour_index(8), 7);
    assert_eq!(number_colour_index(9), 7);
}
