//! The Othello AI: a positional evaluation with a mobility term, minimax
//! with alpha-beta pruning, and the choice of move per difficulty.
//!
//! The value of a position is `mm_value`: plain minimax without pruning,
//! where a player without a move passes at the same depth. The pruned search
//! is proved to return that value whenever it lies strictly inside the
//! window, and a bound on it otherwise.

use vstd::prelude::*;

use crate::othello::logic::{
    begin_placement, get_valid_moves, grid, lemma_valid_upto, legal_squares, place_stone, placed, Board,
    FlipQueue,
};
use crate::othello::state::{AiDifficulty, CurrentTurn, GameMode, Player};
use crate::random::{chance, index_below};

verus! {

/// Value of each square for its owner: corners high, the squares next to
/// them negative.
pub const POSITION_WEIGHTS: [[i32; 8]; 8] = [
    [100, -25, 10, 5, 5, 10, -25, 100],
    [-25, -45, 1, 1, 1, 1, -45, -25],
    [10, 1, 3, 2, 2, 3, 1, 10],
    [5, 1, 2, 1, 1, 2, 1, 5],
    [5, 1, 2, 1, 1, 2, 1, 5],
    [10, 1, 3, 2, 2, 3, 1, 10],
    [-25, -45, 1, 1, 1, 1, -45, -25],
    [100, -25, 10, 5, 5, 10, -25, 100],
];

/// Largest magnitude of an evaluation.
pub const EVAL_BOUND: i32 = 7000;

// ---------------------------------------------------------------------------
// Model
// ---------------------------------------------------------------------------

pub open spec fn weight(r: int, c: int) -> int {
    POSITION_WEIGHTS@[r]@[c] as int
}

/// Weights of the first `n` squares, counted for `ai` and against the other.
pub open spec fn weighted_upto(g: Seq<Seq<Option<Player>>>, ai: Player, n: int) -> int
    decreases n,
{
    if n <= 0 {
        0
    } else {
        let r = (n - 1) / 8;
        let c = (n - 1) % 8;
        weighted_upto(g, ai, n - 1) + match g[r][c] {
            Some(p) => if p == ai {
                weight(r, c)
            } else {
                -weight(r, c)
            },
            None => 0,
        }
    }
}

/// Static value of a position for `ai`: square weights plus five per move
/// that `ai` has more than its opponent.
pub open spec fn evaluation(g: Seq<Seq<Option<Player>>>, ai: Player) -> int {
    weighted_upto(g, ai, 64) + (legal_squares(g, ai).len() - legal_squares(g, ai.other()).len()) * 5
}

/// The player to move at a maximizing or a minimizing node.
pub open spec fn mover(maximizing: bool, ai: Player) -> Player {
    if maximizing {
        ai
    } else {
        ai.other()
    }
}

pub open spec fn pass_flag(g: Seq<Seq<Option<Player>>>, maximizing: bool, ai: Player) -> nat {
    if legal_squares(g, mover(maximizing, ai)).len() == 0 {
        1
    } else {
        0
    }
}

pub open spec fn max(a: int, b: int) -> int {
    if a >= b {
        a
    } else {
        b
    }
}

pub open spec fn min(a: int, b: int) -> int {
    if a <= b {
        a
    } else {
        b
    }
}

/// Minimax value for `ai`, searching `depth` moves; a player without a move
/// passes without using up depth, and the search ends when nobody can move.
pub open spec fn mm_value(g: Seq<Seq<Option<Player>>>, depth: nat, maximizing: bool, ai: Player) -> int
    decreases depth, 2 + pass_flag(g, maximizing, ai), 0nat,
{
    let moves = legal_squares(g, mover(maximizing, ai));
    if depth == 0 || (moves.len() == 0 && legal_squares(g, mover(maximizing, ai).other()).len() == 0) {
        evaluation(g, ai)
    } else if moves.len() == 0 {
        mm_value(g, depth, !maximizing, ai)
    } else {
        mm_best(g, moves, depth, maximizing, ai)
    }
}

/// Value after the player to move plays `mv`.
pub open spec fn child_value(
    g: Seq<Seq<Option<Player>>>,
    mv: (usize, usize),
    depth: nat,
    maximizing: bool,
    ai: Player,
) -> int
    decreases depth, 5nat, 0nat,
{
    mm_value(placed(g, mv.0 as int, mv.1 as int, mover(maximizing, ai)), depth, !maximizing, ai)
}

/// Best child value over `moves`: the largest at a maximizing node, the
/// smallest at a minimizing one.
pub open spec fn mm_best(
    g: Seq<Seq<Option<Player>>>,
    moves: Seq<(usize, usize)>,
    depth: nat,
    maximizing: bool,
    ai: Player,
) -> int
    decreases depth, 0nat, moves.len(),
{
    if moves.len() == 0 || depth == 0 {
        0
    } else if moves.len() == 1 {
        child_value(g, moves[0], (depth - 1) as nat, maximizing, ai)
    } else {
        let a = mm_best(g, moves.drop_last(), depth, maximizing, ai);
        let b = child_value(g, moves.last(), (depth - 1) as nat, maximizing, ai);
        if maximizing {
            max(a, b)
        } else {
            min(a, b)
        }
    }
}

/// Index of the first move of largest value for `ai` (the root of the
/// search, where `ai` moves).
pub open spec fn first_best(g: Seq<Seq<Option<Player>>>, moves: Seq<(usize, usize)>, d: nat, ai: Player) -> int
    decreases moves.len(),
{
    if moves.len() <= 1 {
        0
    } else {
        let k = first_best(g, moves.drop_last(), d, ai);
        if child_value(g, moves.last(), d, true, ai) > child_value(g, moves[k], d, true, ai) {
            moves.len() - 1
        } else {
            k
        }
    }
}

/// The move the search picks for `ai` at `depth`: the first of best value,
/// or none when `ai` cannot move.
pub open spec fn search_choice(g: Seq<Seq<Option<Player>>>, ai: Player, depth: nat) -> Option<(usize, usize)> {
    let moves = legal_squares(g, ai);
    if moves.len() == 0 {
        None
    } else {
        Some(moves[first_best(g, moves, (depth - 1) as nat, ai)])
    }
}

// ---------------------------------------------------------------------------
// Lemmas
// ---------------------------------------------------------------------------

proof fn lemma_mm_best_step(
    g: Seq<Seq<Option<Player>>>,
    s: Seq<(usize, usize)>,
    i: int,
    depth: nat,
    maximizing: bool,
    ai: Player,
)
    requires
        0 <= i < s.len(),
        depth > 0,
    ensures
        i == 0 ==> mm_best(g, s.take(i + 1), depth, maximizing, ai) == child_value(
            g,
            s[i],
            (depth - 1) as nat,
            maximizing,
            ai,
        ),
        i > 0 && maximizing ==> mm_best(g, s.take(i + 1), depth, maximizing, ai) == max(
            mm_best(g, s.take(i), depth, maximizing, ai),
            child_value(g, s[i], (depth - 1) as nat, maximizing, ai),
        ),
        i > 0 && !maximizing ==> mm_best(g, s.take(i + 1), depth, maximizing, ai) == min(
            mm_best(g, s.take(i), depth, maximizing, ai),
            child_value(g, s[i], (depth - 1) as nat, maximizing, ai),
        ),
{
    assert(s.take(i + 1).drop_last() =~= s.take(i));
    assert(s.take(i + 1).last() == s[i]);
}

/// The best over a prefix bounds the best over all moves.
proof fn lemma_mm_best_prefix(
    g: Seq<Seq<Option<Player>>>,
    s: Seq<(usize, usize)>,
    k: int,
    depth: nat,
    maximizing: bool,
    ai: Player,
)
    requires
        1 <= k <= s.len(),
        depth > 0,
    ensures
        maximizing ==> mm_best(g, s.take(k), depth, maximizing, ai) <= mm_best(g, s, depth, maximizing, ai),
        !maximizing ==> mm_best(g, s.take(k), depth, maximizing, ai) >= mm_best(g, s, depth, maximizing, ai),
    decreases s.len(),
{
    if k == s.len() {
        assert(s.take(k) =~= s);
    } else {
        let t = s.drop_last();
        lemma_mm_best_prefix(g, t, k, depth, maximizing, ai);
        assert(t.take(k) =~= s.take(k));
    }
}

proof fn lemma_first_best_range(g: Seq<Seq<Option<Player>>>, s: Seq<(usize, usize)>, d: nat, ai: Player)
    requires
        s.len() > 0,
    ensures
        0 <= first_best(g, s, d, ai) < s.len(),
    decreases s.len(),
{
    if s.len() > 1 {
        lemma_first_best_range(g, s.drop_last(), d, ai);
    }
}

proof fn lemma_first_best_step(g: Seq<Seq<Option<Player>>>, s: Seq<(usize, usize)>, i: int, d: nat, ai: Player)
    requires
        0 < i < s.len(),
    ensures
        0 <= first_best(g, s.take(i), d, ai) < i,
        first_best(g, s.take(i + 1), d, ai) == if child_value(g, s[i], d, true, ai) > child_value(
            g,
            s[first_best(g, s.take(i), d, ai)],
            d,
            true,
            ai,
        ) {
            i
        } else {
            first_best(g, s.take(i), d, ai)
        },
{
    assert(s.take(i + 1).drop_last() =~= s.take(i));
    assert(s.take(i + 1).last() == s[i]);
    lemma_first_best_range(g, s.take(i), d, ai);
    let k = first_best(g, s.take(i), d, ai);
    assert(s.take(i)[k] == s[k]);
    assert(s.take(i + 1)[k] == s[k]);
}

/// The first best move is at least as good as every move, and every move
/// before it is strictly worse.
proof fn lemma_first_best_order(g: Seq<Seq<Option<Player>>>, s: Seq<(usize, usize)>, d: nat, ai: Player)
    requires
        s.len() > 0,
    ensures
        forall|k: int|
            0 <= k < s.len() ==> child_value(g, s[first_best(g, s, d, ai)], d, true, ai) >= child_value(
                g,
                #[trigger] s[k],
                d,
                true,
                ai,
            ),
        forall|k: int|
            0 <= k < first_best(g, s, d, ai) ==> child_value(g, #[trigger] s[k], d, true, ai) < child_value(
                g,
                s[first_best(g, s, d, ai)],
                d,
                true,
                ai,
            ),
    decreases s.len(),
{
    lemma_first_best_range(g, s, d, ai);
    if s.len() > 1 {
        let t = s.drop_last();
        lemma_first_best_order(g, t, d, ai);
        lemma_first_best_range(g, t, d, ai);
        let j = first_best(g, t, d, ai);
        assert(t[j] == s[j]);
        assert forall|k: int| 0 <= k < s.len() implies child_value(g, s[first_best(g, s, d, ai)], d, true, ai)
            >= child_value(g, #[trigger] s[k], d, true, ai) by {
            if k < t.len() {
                assert(t[k] == s[k]);
            }
        }
        assert forall|k: int| 0 <= k < first_best(g, s, d, ai) implies child_value(g, #[trigger] s[k], d, true, ai)
            < child_value(g, s[first_best(g, s, d, ai)], d, true, ai) by {
            assert(t[k] == s[k]);
        }
    }
}

/// The best child value over nonempty `moves` bounds every child value and is
/// one of them.
proof fn lemma_mm_best_bounds(
    g: Seq<Seq<Option<Player>>>,
    s: Seq<(usize, usize)>,
    depth: nat,
    maximizing: bool,
    ai: Player,
)
    requires
        s.len() > 0,
        depth > 0,
    ensures
        forall|k: int|
            0 <= k < s.len() ==> if maximizing {
                mm_best(g, s, depth, maximizing, ai) >= child_value(g, #[trigger] s[k], (depth - 1) as nat, maximizing, ai)
            } else {
                mm_best(g, s, depth, maximizing, ai) <= child_value(g, s[k], (depth - 1) as nat, maximizing, ai)
            },
        exists|k: int|
            0 <= k < s.len() && mm_best(g, s, depth, maximizing, ai) == child_value(
                g,
                #[trigger] s[k],
                (depth - 1) as nat,
                maximizing,
                ai,
            ),
    decreases s.len(),
{
    let d = (depth - 1) as nat;
    if s.len() == 1 {
        assert(mm_best(g, s, depth, maximizing, ai) == child_value(g, s[0], d, maximizing, ai));
    } else {
        let t = s.drop_last();
        lemma_mm_best_bounds(g, t, depth, maximizing, ai);
        assert forall|k: int| 0 <= k < s.len() implies if maximizing {
            mm_best(g, s, depth, maximizing, ai) >= child_value(g, #[trigger] s[k], d, maximizing, ai)
        } else {
            mm_best(g, s, depth, maximizing, ai) <= child_value(g, s[k], d, maximizing, ai)
        } by {
            if k < t.len() {
                assert(t[k] == s[k]);
            }
        }
        let j = choose|j: int| 0 <= j < t.len() && mm_best(g, t, depth, maximizing, ai) == child_value(
            g,
            #[trigger] t[j],
            d,
            maximizing,
            ai,
        );
        assert(t[j] == s[j]);
        if mm_best(g, s, depth, maximizing, ai) == child_value(g, s[s.len() - 1], d, maximizing, ai) {
            assert(mm_best(g, s, depth, maximizing, ai) == child_value(g, s[s.len() - 1], d, maximizing, ai));
        } else {
            assert(mm_best(g, s, depth, maximizing, ai) == child_value(g, s[j], d, maximizing, ai));
        }
    }
}

/// Law: the search values each legal move of `ai` by the minimax value of
/// the position after it, searched `depth - 1` further plies with the
/// opponent to move; it plays a move of greatest value, the first such in
/// the order of the legal moves, and passes only without a legal move.
pub proof fn search_plays_best(g: Seq<Seq<Option<Player>>>, ai: Player, depth: nat)
    requires
        depth >= 1,
    ensures
        search_choice(g, ai, depth) is None <==> legal_squares(g, ai).len() == 0,
        search_choice(g, ai, depth) matches Some(r) ==> {
            let d = (depth - 1) as nat;
            let ms = legal_squares(g, ai);
            &&& ms.contains(r)
            &&& forall|mv: (usize, usize)|
                #[trigger] ms.contains(mv) ==> mm_value(placed(g, r.0 as int, r.1 as int, ai), d, false, ai) >= mm_value(
                    placed(g, mv.0 as int, mv.1 as int, ai),
                    d,
                    false,
                    ai,
                )
            &&& exists|k: int|
                0 <= k < ms.len() && ms[k] == r && forall|j: int|
                    0 <= j < k ==> mm_value(placed(g, (#[trigger] ms[j]).0 as int, ms[j].1 as int, ai), d, false, ai)
                        < mm_value(placed(g, r.0 as int, r.1 as int, ai), d, false, ai)
        },
{
    let ms = legal_squares(g, ai);
    let d = (depth - 1) as nat;
    if ms.len() > 0 {
        lemma_first_best_range(g, ms, d, ai);
        lemma_first_best_order(g, ms, d, ai);
        let k = first_best(g, ms, d, ai);
        let r = ms[k];
        assert(ms.contains(r));
        assert forall|mv: (usize, usize)| #[trigger] ms.contains(mv) implies mm_value(
            placed(g, r.0 as int, r.1 as int, ai),
            d,
            false,
            ai,
        ) >= mm_value(placed(g, mv.0 as int, mv.1 as int, ai), d, false, ai) by {
            let j = choose|j: int| 0 <= j < ms.len() && ms[j] == mv;
            assert(child_value(g, ms[j], d, true, ai) <= child_value(g, r, d, true, ai));
        }
        assert forall|j: int| 0 <= j < k implies mm_value(
            placed(g, (#[trigger] ms[j]).0 as int, ms[j].1 as int, ai),
            d,
            false,
            ai,
        ) < mm_value(placed(g, r.0 as int, r.1 as int, ai), d, false, ai) by {
            assert(child_value(g, ms[j], d, true, ai) < child_value(g, r, d, true, ai));
        }
    }
}

/// Law: the minimax value is the static evaluation at depth zero or when
/// neither player can move; a player without a move passes without using up
/// depth; otherwise it is the largest (for `ai`) or smallest (for its
/// opponent) value over the mover's legal moves of the position after the
/// move, searched one ply less with the other player to move.
pub proof fn minimax_value_law(g: Seq<Seq<Option<Player>>>, depth: nat, maximizing: bool, ai: Player)
    ensures
        depth == 0 || legal_squares(g, mover(maximizing, ai)).len() == 0 && legal_squares(
            g,
            mover(maximizing, ai).other(),
        ).len() == 0 ==> mm_value(g, depth, maximizing, ai) == evaluation(g, ai),
        depth > 0 && legal_squares(g, mover(maximizing, ai)).len() == 0 && legal_squares(
            g,
            mover(maximizing, ai).other(),
        ).len() > 0 ==> mm_value(g, depth, maximizing, ai) == mm_value(g, depth, !maximizing, ai),
        depth > 0 && maximizing ==> forall|mv: (usize, usize)|
            #[trigger] legal_squares(g, ai).contains(mv) ==> mm_value(g, depth, maximizing, ai) >= mm_value(
                placed(g, mv.0 as int, mv.1 as int, ai),
                (depth - 1) as nat,
                false,
                ai,
            ),
        depth > 0 && !maximizing ==> forall|mv: (usize, usize)|
            #[trigger] legal_squares(g, ai.other()).contains(mv) ==> mm_value(g, depth, maximizing, ai) <= mm_value(
                placed(g, mv.0 as int, mv.1 as int, ai.other()),
                (depth - 1) as nat,
                true,
                ai,
            ),
        depth > 0 && legal_squares(g, mover(maximizing, ai)).len() > 0 ==> exists|mv: (usize, usize)|
            #[trigger] legal_squares(g, mover(maximizing, ai)).contains(mv) && mm_value(g, depth, maximizing, ai)
                == mm_value(
                placed(g, mv.0 as int, mv.1 as int, mover(maximizing, ai)),
                (depth - 1) as nat,
                !maximizing,
                ai,
            ),
{
    let p = mover(maximizing, ai);
    let moves = legal_squares(g, p);
    if depth > 0 && moves.len() > 0 {
        assert(mm_value(g, depth, maximizing, ai) == mm_best(g, moves, depth, maximizing, ai));
        lemma_mm_best_bounds(g, moves, depth, maximizing, ai);
        let d = (depth - 1) as nat;
        assert forall|mv: (usize, usize)| #[trigger] moves.contains(mv) implies if maximizing {
            mm_value(g, depth, maximizing, ai) >= mm_value(placed(g, mv.0 as int, mv.1 as int, p), d, !maximizing, ai)
        } else {
            mm_value(g, depth, maximizing, ai) <= mm_value(placed(g, mv.0 as int, mv.1 as int, p), d, !maximizing, ai)
        } by {
            let j = choose|j: int| 0 <= j < moves.len() && moves[j] == mv;
            assert(child_value(g, moves[j], d, maximizing, ai) == mm_value(
                placed(g, mv.0 as int, mv.1 as int, p),
                d,
                !maximizing,
                ai,
            ));
        }
        let j = choose|j: int| 0 <= j < moves.len() && mm_best(g, moves, depth, maximizing, ai) == child_value(
            g,
            #[trigger] moves[j],
            d,
            maximizing,
            ai,
        );
        assert(moves.contains(moves[j]));
    }
}

// ---------------------------------------------------------------------------
// Evaluation and search
// ---------------------------------------------------------------------------

/// Static value of the board for `ai_player`.
pub fn evaluate(board: &Board, ai_player: Player) -> (score: i32)
    ensures
        score == evaluation(grid(board.cells), ai_player),
        -EVAL_BOUND <= score <= EVAL_BOUND,
{
    let ghost g = grid(board.cells);
    let opp = ai_player.opponent();
    let mut score: i32 = 0;
    let mut row: usize = 0;
    while row < 8
        invariant
            row <= 8,
            g == grid(board.cells),
            score == weighted_upto(g, ai_player, (row * 8) as int),
            -100 * (row * 8) <= score <= 100 * (row * 8),
        decreases 8 - row,
    {
        let mut col: usize = 0;
        while col < 8
            invariant
                row < 8,
                col <= 8,
                g == grid(board.cells),
                score == weighted_upto(g, ai_player, (row * 8 + col) as int),
                -100 * (row * 8 + col) <= score <= 100 * (row * 8 + col),
            decreases 8 - col,
        {
            assert((row * 8 + col) / 8 == row && (row * 8 + col) % 8 == col);
            let w = POSITION_WEIGHTS[row][col];
            assert(-100 <= w <= 100);
            match board.cells[row][col] {
                Some(p) => {
                    if p == ai_player {
                        score += w;
                    } else {
                        score -= w;
                    }
                },
                None => {},
            }
            col += 1;
        }
        row += 1;
    }
    let ai_moves = get_valid_moves(board, ai_player);
    let opp_moves = get_valid_moves(board, opp);
    proof {
        lemma_valid_upto(g, ai_player, 64);
        lemma_valid_upto(g, opp, 64);
    }
    let ai_count = ai_moves.len() as i32;
    let opp_count = opp_moves.len() as i32;
    score += (ai_count - opp_count) * 5;
    score
}

/// Minimax with alpha-beta pruning for `ai_player`; at a maximizing node
/// `ai_player` moves. The result `r` is exact inside the window and a bound
/// outside it: `alpha < r < beta` gives the value itself, `r <= alpha` an
/// upper bound and `r >= beta` a lower bound.
pub fn minimax(board: &Board, depth: u8, alpha: i32, beta: i32, maximizing: bool, ai_player: Player) -> (r: i32)
    requires
        alpha < beta,
    ensures
        -EVAL_BOUND <= r <= EVAL_BOUND,
        alpha < r < beta ==> r == mm_value(grid(board.cells), depth as nat, maximizing, ai_player),
        r <= alpha ==> mm_value(grid(board.cells), depth as nat, maximizing, ai_player) <= r,
        r >= beta ==> mm_value(grid(board.cells), depth as nat, maximizing, ai_player) >= r,
    decreases depth, pass_flag(grid(board.cells), maximizing, ai_player),
{
    let ghost g = grid(board.cells);
    let current_player = if maximizing {
        ai_player
    } else {
        ai_player.opponent()
    };
    let moves = get_valid_moves(board, current_player);
    if depth == 0 || (moves.len() == 0 && get_valid_moves(board, current_player.opponent()).len() == 0) {
        return evaluate(board, ai_player);
    }
    if moves.len() == 0 {
        return minimax(board, depth, alpha, beta, !maximizing, ai_player);
    }
    proof {
        lemma_valid_upto(g, current_player, 64);
    }
    let ghost ms = moves@;
    let ghost v = mm_value(g, depth as nat, maximizing, ai_player);
    assert(v == mm_best(g, ms, depth as nat, maximizing, ai_player));
    if maximizing {
        let mut best: i32 = i32::MIN;
        let mut a: i32 = alpha;
        let mut i: usize = 0;
        while i < moves.len()
            invariant
                g == grid(board.cells),
                moves@ == ms,
                ms == legal_squares(g, ai_player),
                ms.len() > 0,
                forall|k: int| 0 <= k < ms.len() ==> (#[trigger] ms[k]).0 < 8 && ms[k].1 < 8,
                maximizing,
                current_player == ai_player,
                depth > 0,
                v == mm_best(g, ms, depth as nat, maximizing, ai_player),
                alpha < beta,
                i <= ms.len(),
                a as int == max(alpha as int, best as int),
                best < beta,
                i == 0 ==> best == i32::MIN,
                i > 0 ==> -EVAL_BOUND <= best <= EVAL_BOUND,
                i > 0 && best <= alpha ==> mm_best(g, ms.take(i as int), depth as nat, maximizing, ai_player)
                    <= best,
                i > 0 && best > alpha ==> mm_best(g, ms.take(i as int), depth as nat, maximizing, ai_player)
                    == best,
            decreases ms.len() - i,
        {
            let (row, col) = moves[i];
            let mut new_board = *board;
            place_stone(&mut new_board, row, col, current_player);
            let val = minimax(&new_board, depth - 1, a, beta, false, ai_player);
            proof {
                lemma_mm_best_step(g, ms, i as int, depth as nat, maximizing, ai_player);
            }
            if val > best {
                best = val;
            }
            if best > a {
                a = best;
            }
            if beta <= a {
                proof {
                    lemma_mm_best_prefix(g, ms, i + 1, depth as nat, maximizing, ai_player);
                }
                return best;
            }
            i += 1;
        }
        assert(ms.take(ms.len() as int) =~= ms);
        best
    } else {
        let mut best: i32 = i32::MAX;
        let mut b: i32 = beta;
        let mut i: usize = 0;
        while i < moves.len()
            invariant
                g == grid(board.cells),
                moves@ == ms,
                ms == legal_squares(g, ai_player.other()),
                ms.len() > 0,
                forall|k: int| 0 <= k < ms.len() ==> (#[trigger] ms[k]).0 < 8 && ms[k].1 < 8,
                !maximizing,
                current_player == ai_player.other(),
                depth > 0,
                v == mm_best(g, ms, depth as nat, maximizing, ai_player),
                alpha < beta,
                i <= ms.len(),
                b as int == min(beta as int, best as int),
                best > alpha,
                i == 0 ==> best == i32::MAX,
                i > 0 ==> -EVAL_BOUND <= best <= EVAL_BOUND,
                i > 0 && best >= beta ==> mm_best(g, ms.take(i as int), depth as nat, maximizing, ai_player)
                    >= best,
                i > 0 && best < beta ==> mm_best(g, ms.take(i as int), depth as nat, maximizing, ai_player)
                    == best,
            decreases ms.len() - i,
        {
            let (row, col) = moves[i];
            let mut new_board = *board;
            place_stone(&mut new_board, row, col, current_player);
            let val = minimax(&new_board, depth - 1, alpha, b, true, ai_player);
            proof {
                lemma_mm_best_step(g, ms, i as int, depth as nat, maximizing, ai_player);
            }
            if val < best {
                best = val;
            }
            if best < b {
                b = best;
            }
            if b <= alpha {
                proof {
                    lemma_mm_best_prefix(g, ms, i + 1, depth as nat, maximizing, ai_player);
                }
                return best;
            }
            i += 1;
        }
        assert(ms.take(ms.len() as int) =~= ms);
        best
    }
}

/// The first move of best value for `ai_player` searching `depth` moves
/// ahead, or `None` when it cannot move.
pub fn search_best(board: &Board, ai_player: Player, depth: u8) -> (r: Option<(usize, usize)>)
    requires
        depth >= 1,
    ensures
        r == search_choice(grid(board.cells), ai_player, depth as nat),
{
    let ghost g = grid(board.cells);
    let moves = get_valid_moves(board, ai_player);
    if moves.len() == 0 {
        return None;
    }
    proof {
        lemma_valid_upto(g, ai_player, 64);
    }
    let ghost ms = moves@;
    let ghost d = (depth - 1) as nat;
    let mut best_val: i32 = i32::MIN;
    let mut best_pos = moves[0];
    let mut i: usize = 0;
    while i < moves.len()
        invariant
            g == grid(board.cells),
            moves@ == ms,
            ms == legal_squares(g, ai_player),
            ms.len() > 0,
            forall|k: int| 0 <= k < ms.len() ==> (#[trigger] ms[k]).0 < 8 && ms[k].1 < 8,
            depth >= 1,
            d == depth - 1,
            i <= ms.len(),
            i == 0 ==> best_val == i32::MIN,
            i > 0 ==> {
                &&& 0 <= first_best(g, ms.take(i as int), d, ai_player) < i
                &&& best_pos == ms[first_best(g, ms.take(i as int), d, ai_player)]
                &&& best_val as int == child_value(g, best_pos, d, true, ai_player)
                &&& -EVAL_BOUND <= best_val <= EVAL_BOUND
            },
        decreases ms.len() - i,
    {
        let (row, col) = moves[i];
        let mut new_board = *board;
        place_stone(&mut new_board, row, col, ai_player);
        let val = minimax(&new_board, depth - 1, i32::MIN, i32::MAX, false, ai_player);
        assert(val as int == child_value(g, ms[i as int], d, true, ai_player));
        proof {
            if i > 0 {
                lemma_first_best_step(g, ms, i as int, d, ai_player);
            }
            assert(ms.take(i + 1).len() == i + 1);
        }
        if val > best_val {
            best_val = val;
            best_pos = (row, col);
        }
        proof {
            lemma_first_best_range(g, ms.take(i + 1), d, ai_player);
            assert(ms.take(i + 1)[first_best(g, ms.take(i + 1), d, ai_player)] == ms[first_best(
                g,
                ms.take(i + 1),
                d,
                ai_player,
            )]);
        }
        i += 1;
    }
    assert(ms.take(ms.len() as int) =~= ms);
    Some(best_pos)
}

/// The AI's move. On Easy, two times in five a uniformly random valid move;
/// otherwise the search's choice at the difficulty's depth.
pub fn best_move(board: &Board, ai_player: Player, difficulty: AiDifficulty) -> (r: Option<(usize, usize)>)
    ensures
        r is None <==> legal_squares(grid(board.cells), ai_player).len() == 0,
        r matches Some(m) ==> legal_squares(grid(board.cells), ai_player).contains(m),
        difficulty != AiDifficulty::Easy ==> r == search_choice(
            grid(board.cells),
            ai_player,
            difficulty.plies() as nat,
        ),
        difficulty == AiDifficulty::Easy ==> exists|random: bool, idx: int|
            #[trigger] easy_choice(grid(board.cells), ai_player, random, idx) == r && (random
                && legal_squares(grid(board.cells), ai_player).len() > 0 ==> 0 <= idx < legal_squares(
                grid(board.cells),
                ai_player,
            ).len()),
{
    let ghost g = grid(board.cells);
    let moves = get_valid_moves(board, ai_player);
    if moves.len() == 0 {
        proof {
            assert(easy_choice(g, ai_player, false, 0) is None);
        }
        return None;
    }
    if difficulty == AiDifficulty::Easy {
        let random = chance(2, 5);
        let idx = if random {
            index_below(moves.len())
        } else {
            0
        };
        let r = easy_move(board, ai_player, random, idx);
        proof {
            assert(easy_choice(g, ai_player, random, idx as int) == r);
            if random {
                assert(moves@[idx as int] == legal_squares(g, ai_player)[idx as int]);
            } else {
                lemma_first_best_range(g, moves@, 1, ai_player);
            }
        }
        return r;
    }
    let r = search_best(board, ai_player, difficulty.depth());
    proof {
        lemma_first_best_range(g, moves@, (difficulty.plies() - 1) as nat, ai_player);
    }
    r
}

/// The Easy level's move, given its draws: with the coin up, the legal move
/// at `idx` (in the order of `get_valid_moves`); otherwise the two-ply
/// search.
pub open spec fn easy_choice(g: Seq<Seq<Option<Player>>>, ai: Player, random: bool, idx: int) -> Option<(usize, usize)> {
    let moves = legal_squares(g, ai);
    if moves.len() == 0 {
        None
    } else if random {
        Some(moves[idx])
    } else {
        search_choice(g, ai, 2)
    }
}

/// The Easy level's move once its random draws are made: `random` says
/// whether the 40% coin came up, `idx` is the drawn index among the legal
/// moves.
pub fn easy_move(board: &Board, ai_player: Player, random: bool, idx: usize) -> (r: Option<(usize, usize)>)
    requires
        random && legal_squares(grid(board.cells), ai_player).len() > 0 ==> idx < legal_squares(
            grid(board.cells),
            ai_player,
        ).len(),
    ensures
        r == easy_choice(grid(board.cells), ai_player, random, idx as int),
{
    let moves = get_valid_moves(board, ai_player);
    if moves.len() == 0 {
        return None;
    }
    if random {
        return Some(moves[idx]);
    }
    search_best(board, ai_player, 2)
}

/// The AI's turn: when playing against the AI and it is White's move, White
/// picks a move, puts the stone down and queues the stones to turn.
pub fn ai_move(board: &mut Board, game_mode: GameMode, turn: &CurrentTurn, difficulty: AiDifficulty) -> (q: Option<
    FlipQueue,
>)
    ensures
        q is None ==> final(board).cells == old(board).cells,
        q is Some <==> game_mode == GameMode::PvAI && turn.0 == Player::White && legal_squares(
            grid(old(board).cells),
            Player::White,
        ).len() > 0,
        q matches Some(fq) ==> exists|m: (usize, usize)|
            {
                &&& #[trigger] legal_squares(grid(old(board).cells), Player::White).contains(m)
                &&& grid(final(board).cells) == crate::othello::logic::with_stone(
                    grid(old(board).cells),
                    m.0 as int,
                    m.1 as int,
                    Player::White,
                )
                &&& fq.flips@ == crate::othello::logic::flips(
                    grid(old(board).cells),
                    m.0 as int,
                    m.1 as int,
                    Player::White,
                )
            },
        q matches Some(fq) ==> fq.player == Player::White,
{
    if game_mode != GameMode::PvAI || turn.0 != Player::White {
        return None;
    }
    let ghost g = grid(board.cells);
    match best_move(board, Player::White, difficulty) {
        Some((row, col)) => {
            proof {
                lemma_valid_upto(g, Player::White, 64);
                let k = choose|k: int| 0 <= k < legal_squares(g, Player::White).len() && legal_squares(g, Player::White)[k] == (row, col);
                assert(legal_squares(g, Player::White)[k] == (row, col));
            }
            let q = begin_placement(board, row, col, Player::White);
            assert(legal_squares(g, Player::White).contains((row, col)));
            Some(q)
        },
        None => None,
    }
}

} // verus!
