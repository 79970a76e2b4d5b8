//! Chess game state: the board the players see, whose turn it is, the
//! selected piece and what a click on the board does.

use vstd::prelude::*;

use crate::text::{push_chars, string_from_chars};
use crate::chess::rules::{
    after, apply_move, at, initial_squares, legal_moves, legal_moves_from, moves_wf, mv_wf,
    piece_at, start_position, status_for, status_of, ChessMove, Color, Square, Squares, Status,
};

verus! {

/// The way the game is played.
#[derive(Clone, Copy, PartialEq, Eq, Structural, Debug)]
pub enum GameMode {
    /// Two players taking turns at the same screen.
    LocalVersus,
}

/// The logical board state.
pub struct Board {
    pub squares: Squares,
    pub turn: Color,
    pub en_passant: Option<Square>,
    pub status: Status,
    pub last_move: Option<ChessMove>,
}

/// The selected piece and its legal moves.
pub struct Selection {
    pub from: Option<Square>,
    pub moves: Vec<ChessMove>,
}

/// The selection lists exactly the legal moves of the selected square (each
/// of which can be applied to the board).
pub open spec fn selection_wf(board: &Board, sel: &Selection) -> bool {
    match sel.from {
        None => sel.moves@.len() == 0,
        Some(f) => sel.moves@ == legal_moves(board.squares@, board.en_passant, f) && moves_wf(
            board.squares@,
            sel.moves@,
        ),
    }
}

/// Index of the first move of `moves` that lands on `sq`.
pub open spec fn first_to(moves: Seq<ChessMove>, sq: Square) -> Option<int> {
    if exists|i: int| 0 <= i < moves.len() && moves[i].to == sq {
        Some(
            choose|i: int|
                0 <= i < moves.len() && moves[i].to == sq && forall|j: int|
                    0 <= j < i ==> moves[j].to != sq,
        )
    } else {
        None
    }
}

impl Board {
    /// A new game: the starting position, White to move.
    pub fn fresh() -> (b: Board)
        ensures
            b.squares@ == start_position(),
            b.turn == Color::White,
            b.en_passant is None,
            b.status == Status::Ongoing,
            b.last_move is None,
    {
        Board {
            squares: initial_squares(),
            turn: Color::White,
            en_passant: None,
            status: Status::Ongoing,
            last_move: None,
        }
    }

    /// Back to the starting position for a new game.
    pub fn reset(&mut self)
        ensures
            final(self).squares@ == start_position(),
            final(self).turn == Color::White,
            final(self).en_passant is None,
            final(self).status == Status::Ongoing,
            final(self).last_move is None,
    {
        *self = Self::fresh();
    }

    /// The game has ended (checkmate or stalemate).
    pub fn is_over(&self) -> (r: bool)
        ensures
            r == (self.status is Checkmate || self.status is Stalemate),
    {
        matches!(self.status, Status::Checkmate { .. } | Status::Stalemate)
    }
}

impl Selection {
    /// Nothing selected.
    pub fn new() -> (s: Selection)
        ensures
            s.from is None,
            s.moves@.len() == 0,
    {
        Selection { from: None, moves: Vec::new() }
    }

    /// Drops the selection.
    pub fn clear(&mut self)
        ensures
            final(self).from is None,
            final(self).moves@.len() == 0,
    {
        self.from = None;
        self.moves.clear();
    }
}

/// The first selected move that lands on `sq`.
fn find_move_to(moves: &Vec<ChessMove>, sq: Square) -> (r: Option<ChessMove>)
    ensures
        r == (match first_to(moves@, sq) {
            Some(i) => Some(moves@[i]),
            None => None,
        }),
        first_to(moves@, sq) matches Some(i) ==> 0 <= i < moves@.len() && moves@[i].to == sq,
{
    let mut i: usize = 0;
    while i < moves.len()
        invariant
            i <= moves@.len(),
            forall|j: int| 0 <= j < i ==> moves@[j].to != sq,
        decreases moves.len() - i,
    {
        if moves[i].to == sq {
            let ghost k = choose|k: int|
                0 <= k < moves@.len() && moves@[k].to == sq && forall|j: int|
                    0 <= j < k ==> moves@[j].to != sq;
            assert(0 <= i < moves@.len() && moves@[i as int].to == sq);
            proof {
                if k != i {
                    if k < i {
                        assert(moves@[k].to != sq);
                    } else {
                        assert(moves@[i as int].to != sq);
                    }
                }
            }
            return Some(moves[i]);
        }
        i += 1;
    }
    None
}

/// A click on the board at `sq` (`None` when the click fell outside the
/// board), for the side to move. Returns whether the board must be redrawn.
///
/// Clicking the target of a selected legal move plays it; clicking a piece of
/// the side to move selects it; any other click drops the selection. Clicks
/// are ignored once the game is over.
pub fn handle_input(board: &mut Board, selection: &mut Selection, sq: Option<Square>) -> (dirty: bool)
    requires
        selection_wf(old(board), old(selection)),
    ensures
        selection_wf(final(board), final(selection)),
        old(board).is_over_spec() ==> !dirty && *final(board) == *old(board)
            && final(selection).from == old(selection).from && final(selection).moves@
            == old(selection).moves@,
        !old(board).is_over_spec() ==> match sq {
            None => {
                &&& *final(board) == *old(board)
                &&& dirty == old(selection).from is Some
                &&& final(selection).from is None
            },
            Some(s) => match first_to(old(selection).moves@, s) {
                Some(i) => {
                    let mv = old(selection).moves@[i];
                    let next = after(old(board).squares@, mv);
                    &&& dirty
                    &&& final(board).squares@ == next.0
                    &&& final(board).en_passant == next.1
                    &&& final(board).turn == old(board).turn.other()
                    &&& final(board).last_move == Some(mv)
                    &&& final(board).status == status_of(next.0, next.1, old(board).turn.other())
                    &&& final(selection).from is None
                },
                None => {
                    &&& *final(board) == *old(board)
                    &&& if at(old(board).squares@, s) matches Some(p) && p.color == old(board).turn {
                        &&& dirty
                        &&& final(selection).from == Some(s)
                    } else {
                        &&& dirty == old(selection).from is Some
                        &&& final(selection).from is None
                    }
                },
            },
        },
{
    if board.is_over() {
        return false;
    }
    let sq = match sq {
        Some(s) => s,
        None => {
            if selection.from.is_some() {
                selection.clear();
                return true;
            }
            return false;
        },
    };
    if let Some(mv) = find_move_to(&selection.moves, sq) {
        proof {
            let i = first_to(selection.moves@, sq)->0;
            let f = selection.from->0;
            assert(selection.moves@[i] == mv);
            assert(mv_wf(board.squares@, selection.moves@[i]));
        }
        let (next, en_passant) = apply_move(&board.squares, mv);
        board.squares = next;
        board.en_passant = en_passant;
        board.turn = board.turn.opposite();
        board.last_move = Some(mv);
        board.status = status_for(&board.squares, board.en_passant, board.turn);
        selection.clear();
        return true;
    }
    match piece_at(&board.squares, sq) {
        Some(p) => {
            if p.color == board.turn {
                selection.from = Some(sq);
                selection.moves = legal_moves_from(&board.squares, board.en_passant, sq);
                return true;
            }
        },
        None => {},
    }
    if selection.from.is_some() {
        selection.clear();
        return true;
    }
    false
}

impl Board {
    pub open spec fn is_over_spec(&self) -> bool {
        self.status is Checkmate || self.status is Stalemate
    }
}

/// How a side is named on screen.
pub open spec fn side_name(c: Color) -> Seq<char> {
    match c {
        Color::White => "백(White)"@,
        Color::Black => "흑(Black)"@,
    }
}

/// The status line for `status` with `turn` to move.
pub open spec fn status_message(status: Status, turn: Color) -> Seq<char> {
    match status {
        Status::Ongoing => side_name(turn) + " 차례"@,
        Status::Check => side_name(turn) + " 차례 — 체크!"@,
        Status::Checkmate { winner } => "체크메이트! "@ + side_name(winner) + " 승리 — R: 새 게임, Esc: 메뉴"@,
        Status::Stalemate => "스테일메이트(무승부) — R: 새 게임, Esc: 메뉴"@,
    }
}

/// The text of the status line: whose turn it is and whether they are in
/// check, or how the game ended and which keys start over.
pub fn status_text(status: Status, turn: Color) -> (s: String)
    ensures
        s@ == status_message(status, turn),
{
    let mut out: Vec<char> = Vec::new();
    match status {
        Status::Ongoing => {
            push_chars(&mut out, turn.label_ko());
            push_chars(&mut out, " 차례");
        },
        Status::Check => {
            push_chars(&mut out, turn.label_ko());
            push_chars(&mut out, " 차례 — 체크!");
        },
        Status::Checkmate { winner } => {
            push_chars(&mut out, "체크메이트! ");
            push_chars(&mut out, winner.label_ko());
            push_chars(&mut out, " 승리 — R: 새 게임, Esc: 메뉴");
        },
        Status::Stalemate => {
            push_chars(&mut out, "스테일메이트(무승부) — R: 새 게임, Esc: 메뉴");
        },
    }
    proof {
        assert(Seq::<char>::empty() + "x"@ =~= "x"@);
    }
    string_from_chars(&out)
}

} // verus!
