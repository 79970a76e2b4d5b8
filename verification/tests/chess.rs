use boardgames::chess::ai::choose_move;
use boardgames::chess::game::{handle_input, status_text, Board, Selection};
use boardgames::chess::rules::{
    all_legal_moves, apply_move, find_king, initial_squares, is_in_check, is_square_attacked,
    legal_moves_from, piece_at, status_for, ChessMove, Color, Kind, MoveFlag, Piece, Square,
    Squares, Status,
};

fn piece(color: Color, kind: Kind) -> Piece {
    Piece {
        color,
        kind,
        has_moved: false,
    }
}

/// Counts the leaf nodes of the legal move tree (perft).
fn perft(squares: &Squares, en_passant: Option<Square>, color: Color, depth: u32) -> u64 {
    if depth == 0 {
        return 1;
    }
    let mut nodes = 0;
    for mv in all_legal_moves(squares, en_passant, color) {
        let (next, ep) = apply_move(squares, mv);
        nodes += perft(&next, ep, color.opposite(), depth - 1);
    }
    nodes
}

#[test]
fn perft_matches_known_values() {
    let squares = initial_squares();
    assert_eq!(perft(&squares, None, Color::White, 1), 20);
    assert_eq!(perft(&squares, None, Color::White, 2), 400);
    assert_eq!(perft(&squares, None, Color::White, 3), 8902);
}

#[test]
fn cannot_leave_king_in_check() {
    let mut squares: Squares = [None; 64];
    squares[Square::new(4, 0).index()] = Some(Piece::new(Color::White, Kind::King));
    squares[Square::new(4, 7).index()] = Some(Piece::new(Color::Black, Kind::Rook));

    let moves = legal_moves_from(&squares, None, Square::new(4, 0));
    assert!(moves.iter().all(|m| m.to.file != 4));
    assert!(!moves.is_empty());
}

#[test]
fn chooses_legal_move_from_start() {
    let squares = initial_squares();
    let mv = choose_move(&squares, None, Color::Black, 2).expect("AI should move");
    let legal = all_legal_moves(&squares, None, Color::Black);
    assert!(legal.contains(&mv));
}

#[test]
fn avoids_leaving_king_in_check() {
    let mut squares: Squares = [None; 64];
    squares[Square::new(4, 0).index()] = Some(piece(Color::White, Kind::King));
    squares[Square::new(4, 7).index()] = Some(piece(Color::Black, Kind::Rook));
    squares[Square::new(0, 0).index()] = Some(piece(Color::White, Kind::Rook));

    let mv = choose_move(&squares, None, Color::White, 3).expect("AI should move");
    let (next, _) = apply_move(&squares, mv);
    assert!(!is_in_check(&next, Color::White));
}

#[test]
fn deterministic_for_same_position() {
    let squares = initial_squares();
    let a = choose_move(&squares, None, Color::Black, 2);
    let b = choose_move(&squares, None, Color::Black, 2);
    assert_eq!(a, b);
}

#[test]
fn prefers_capture_when_obvious() {
    let mut squares: Squares = [None; 64];
    squares[Square::new(4, 0).index()] = Some(piece(Color::White, Kind::King));
    squares[Square::new(0, 0).index()] = Some(piece(Color::White, Kind::Rook));
    squares[Square::new(4, 7).index()] = Some(piece(Color::Black, Kind::King));
    squares[Square::new(4, 6).index()] = Some(piece(Color::Black, Kind::Queen));

    let mv = choose_move(&squares, None, Color::Black, 3).expect("AI should move");
    assert_eq!(mv.from, Square::new(4, 6));
    assert_eq!(mv.to, Square::new(4, 0));
    assert!(legal_moves_from(&squares, None, mv.from).iter().any(|m| *m == mv));
}

#[test]
fn opposite_and_labels() {
    assert_eq!(Color::White.opposite(), Color::Black);
    assert_eq!(Color::Black.opposite().opposite(), Color::Black);
    assert_eq!(Color::White.label_ko(), "백(White)");
    assert_eq!(Color::Black.label_ko(), "흑(Black)");
    assert_eq!(Kind::Knight.letter(), "N");
    assert_eq!(Kind::King.letter(), "K");
}

#[test]
fn starting_position_layout() {
    let squares = initial_squares();
    assert_eq!(
        piece_at(&squares, Square::new(4, 0)),
        Some(piece(Color::White, Kind::King))
    );
    assert_eq!(
        piece_at(&squares, Square::new(3, 7)),
        Some(piece(Color::Black, Kind::Queen))
    );
    assert_eq!(piece_at(&squares, Square::new(4, 4)), None);
    assert_eq!(piece_at(&squares, Square::new(8, 0)), None);
    assert_eq!(find_king(&squares, Color::Black), Some(Square::new(4, 7)));
    assert_eq!(status_for(&squares, None, Color::White), Status::Ongoing);
}

#[test]
fn square_indexing() {
    assert_eq!(Square::new(0, 0).index(), 0);
    assert_eq!(Square::new(7, 7).index(), 63);
    assert_eq!(Square::new(3, 2).index(), 19);
    assert!(Square::new(7, 0).in_bounds());
    assert!(!Square::new(-1, 3).in_bounds());
}

#[test]
fn fools_mate_is_checkmate() {
    let mut squares = initial_squares();
    let mut ep = None;
    let moves = [
        (5, 1, 5, 2, MoveFlag::Normal),
        (4, 6, 4, 4, MoveFlag::DoublePawn),
        (6, 1, 6, 3, MoveFlag::DoublePawn),
        (3, 7, 7, 3, MoveFlag::Normal),
    ];
    for (ff, fr, tf, tr, flag) in moves {
        let mv = ChessMove {
            from: Square::new(ff, fr),
            to: Square::new(tf, tr),
            flag,
        };
        let (next, e) = apply_move(&squares, mv);
        squares = next;
        ep = e;
    }
    assert!(is_in_check(&squares, Color::White));
    assert_eq!(
        status_for(&squares, ep, Color::White),
        Status::Checkmate {
            winner: Color::Black
        }
    );
    assert_eq!(choose_move(&squares, ep, Color::White, 1), None);
}

#[test]
fn stalemate_detected() {
    let mut squares: Squares = [None; 64];
    squares[Square::new(0, 7).index()] = Some(piece(Color::Black, Kind::King));
    squares[Square::new(1, 5).index()] = Some(piece(Color::White, Kind::Queen));
    squares[Square::new(2, 6).index()] = Some(piece(Color::White, Kind::King));
    assert!(!is_in_check(&squares, Color::Black));
    assert_eq!(status_for(&squares, None, Color::Black), Status::Stalemate);
}

#[test]
fn en_passant_and_double_push() {
    let mut squares: Squares = [None; 64];
    squares[Square::new(4, 0).index()] = Some(piece(Color::White, Kind::King));
    squares[Square::new(4, 7).index()] = Some(piece(Color::Black, Kind::King));
    squares[Square::new(4, 4).index()] = Some(piece(Color::White, Kind::Pawn));
    squares[Square::new(3, 6).index()] = Some(piece(Color::Black, Kind::Pawn));
    let (next, ep) = apply_move(
        &squares,
        ChessMove {
            from: Square::new(3, 6),
            to: Square::new(3, 4),
            flag: MoveFlag::DoublePawn,
        },
    );
    assert_eq!(ep, Some(Square::new(3, 5)));
    let moves = legal_moves_from(&next, ep, Square::new(4, 4));
    let capture = ChessMove {
        from: Square::new(4, 4),
        to: Square::new(3, 5),
        flag: MoveFlag::EnPassant,
    };
    assert!(moves.contains(&capture));
    let (after, ep2) = apply_move(&next, capture);
    assert_eq!(ep2, None);
    assert_eq!(piece_at(&after, Square::new(3, 4)), None);
    assert_eq!(
        piece_at(&after, Square::new(3, 5)).map(|p| p.kind),
        Some(Kind::Pawn)
    );
}

#[test]
fn castling_moves_rook() {
    let mut squares: Squares = [None; 64];
    squares[Square::new(4, 0).index()] = Some(piece(Color::White, Kind::King));
    squares[Square::new(7, 0).index()] = Some(piece(Color::White, Kind::Rook));
    squares[Square::new(4, 7).index()] = Some(piece(Color::Black, Kind::King));
    let moves = legal_moves_from(&squares, None, Square::new(4, 0));
    let castle = ChessMove {
        from: Square::new(4, 0),
        to: Square::new(6, 0),
        flag: MoveFlag::Castle,
    };
    assert!(moves.contains(&castle));
    let (after, _) = apply_move(&squares, castle);
    assert_eq!(
        piece_at(&after, Square::new(5, 0)),
        Some(Piece {
            color: Color::White,
            kind: Kind::Rook,
            has_moved: true
        })
    );
    assert_eq!(piece_at(&after, Square::new(7, 0)), None);
    // A rook on the f-file forbids castling through f1.
    squares[Square::new(5, 7).index()] = Some(piece(Color::Black, Kind::Rook));
    assert!(is_square_attacked(&squares, Square::new(5, 0), Color::Black));
    let moves = legal_moves_from(&squares, None, Square::new(4, 0));
    assert!(!moves.contains(&castle));
}

#[test]
fn promotion_makes_a_queen() {
    let mut squares: Squares = [None; 64];
    squares[Square::new(4, 0).index()] = Some(piece(Color::White, Kind::King));
    squares[Square::new(0, 7).index()] = Some(piece(Color::Black, Kind::King));
    squares[Square::new(7, 6).index()] = Some(piece(Color::White, Kind::Pawn));
    let moves = legal_moves_from(&squares, None, Square::new(7, 6));
    assert_eq!(
        moves,
        vec![ChessMove {
            from: Square::new(7, 6),
            to: Square::new(7, 7),
            flag: MoveFlag::Promotion
        }]
    );
    let (after, _) = apply_move(&squares, moves[0]);
    assert_eq!(
        piece_at(&after, Square::new(7, 7)).map(|p| p.kind),
        Some(Kind::Queen)
    );
}

#[test]
fn click_selects_and_moves() {
    let mut board = Board::fresh();
    let mut sel = Selection::new();
    assert!(!handle_input(&mut board, &mut sel, None));
    assert!(handle_input(&mut board, &mut sel, Some(Square::new(4, 1))));
    assert_eq!(sel.from, Some(Square::new(4, 1)));
    assert_eq!(sel.moves.len(), 2);
    assert!(handle_input(&mut board, &mut sel, Some(Square::new(4, 3))));
    assert_eq!(sel.from, None);
    assert_eq!(board.turn, Color::Black);
    assert_eq!(board.en_passant, Some(Square::new(4, 2)));
    assert_eq!(board.status, Status::Ongoing);
    // White pieces cannot be selected on Black's turn.
    assert!(!handle_input(&mut board, &mut sel, Some(Square::new(3, 1))));
    board.reset();
    assert_eq!(board.turn, Color::White);
    assert!(!board.is_over());
}

#[test]
fn status_lines() {
    assert_eq!(status_text(Status::Ongoing, Color::Black), "흑(Black) 차례");
    assert_eq!(status_text(Status::Check, Color::White), "백(White) 차례 — 체크!");
    assert_eq!(
        status_text(Status::Checkmate { winner: Color::White }, Color::Black),
        "체크메이트! 백(White) 승리 — R: 새 게임, Esc: 메뉴"
    );
    assert_eq!(status_text(Status::Stalemate, Color::White), "스테일메이트(무승부) — R: 새 게임, Esc: 메뉴");
}

#[test]
fn legal_moves_land_on_the_board_and_never_repeat() {
    let squares = initial_squares();
    for idx in 0..64 {
        let from = Square::new((idx % 8) as i32, (idx / 8) as i32);
        let moves = legal_moves_from(&squares, None, from);
        match piece_at(&squares, from) {
            None => assert!(moves.is_empty()),
            Some(p) => {
                for (i, m) in moves.iter().enumerate() {
                    assert_eq!(m.from, from);
                    assert!(m.to.in_bounds());
                    assert!(piece_at(&squares, m.to).map_or(true, |q| q.color != p.color));
                    assert!(!moves[i + 1..].contains(m));
                }
            }
        }
    }
    // A queen in the open: 27 different moves, no square twice.
    let mut open: Squares = [None; 64];
    open[Square::new(0, 1).index()] = Some(piece(Color::White, Kind::King));
    open[Square::new(6, 7).index()] = Some(piece(Color::Black, Kind::King));
    open[Square::new(3, 3).index()] = Some(piece(Color::White, Kind::Queen));
    let moves = legal_moves_from(&open, None, Square::new(3, 3));
    assert_eq!(moves.len(), 27);
    for (i, m) in moves.iter().enumerate() {
        assert!(!moves[i + 1..].iter().any(|n| n.to == m.to));
    }
}

#[test]
fn all_moves_come_square_by_square() {
    let squares = initial_squares();
    let all = all_legal_moves(&squares, None, Color::White);
    let mut expected: Vec<ChessMove> = Vec::new();
    for idx in 0..64 {
        let from = Square::new((idx % 8) as i32, (idx / 8) as i32);
        if piece_at(&squares, from).map_or(false, |p| p.color == Color::White) {
            expected.extend(legal_moves_from(&squares, None, from));
        }
    }
    assert_eq!(all, expected);
    assert!(all.windows(2).all(|w| w[0].from.index() <= w[1].from.index()));
}

#[test]
fn attacks_ignore_the_target_and_mirror_with_colours() {
    let mut squares: Squares = [None; 64];
    squares[Square::new(2, 6).index()] = Some(piece(Color::Black, Kind::Knight));
    squares[Square::new(6, 2).index()] = Some(piece(Color::Black, Kind::Bishop));
    squares[Square::new(4, 6).index()] = Some(piece(Color::Black, Kind::Pawn));
    let target = Square::new(3, 4);
    let attacked = is_square_attacked(&squares, target, Color::Black);
    assert!(attacked);
    let mut with_piece = squares;
    with_piece[target.index()] = Some(piece(Color::White, Kind::Rook));
    assert_eq!(is_square_attacked(&with_piece, target, Color::Black), attacked);

    let mut mirrored: Squares = [None; 64];
    for idx in 0..64 {
        let q = Square::new((idx % 8) as i32, (idx / 8) as i32);
        let m = Square::new(q.file, 7 - q.rank);
        mirrored[m.index()] = squares[q.index()].map(|p| Piece {
            color: p.color.opposite(),
            ..p
        });
    }
    for idx in 0..64 {
        let q = Square::new((idx % 8) as i32, (idx / 8) as i32);
        let m = Square::new(q.file, 7 - q.rank);
        for by in [Color::White, Color::Black] {
            assert_eq!(
                is_square_attacked(&mirrored, m, by.opposite()),
                is_square_attacked(&squares, q, by)
            );
        }
    }
}

#[test]
fn one_ply_search_takes_the_mate() {
    let mut squares: Squares = [None; 64];
    squares[Square::new(6, 0).index()] = Some(piece(Color::White, Kind::King));
    squares[Square::new(0, 0).index()] = Some(piece(Color::White, Kind::Rook));
    squares[Square::new(6, 7).index()] = Some(piece(Color::Black, Kind::King));
    for file in 5..8 {
        squares[Square::new(file, 6).index()] = Some(piece(Color::Black, Kind::Pawn));
    }
    let mv = choose_move(&squares, None, Color::White, 1).expect("a move");
    assert_eq!(mv.from, Square::new(0, 0));
    assert_eq!(mv.to, Square::new(0, 7));
    let (after, ep) = apply_move(&squares, mv);
    assert_eq!(
        status_for(&after, ep, Color::Black),
        Status::Checkmate { winner: Color::White }
    );
}
