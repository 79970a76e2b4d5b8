//! Othello rules on an 8x8 board.
//!
//! A stone placed on `(row, col)` flanks, in each of the eight directions,
//! the unbroken run of opponent stones that starts next to it and ends at one
//! of the player's own stones; those stones are turned. A move is valid on an
//! empty square that flanks at least one stone.

use std::collections::VecDeque;
use vstd::prelude::*;

use crate::othello::state::{CurrentTurn, GameMode, GameResult, Player};

verus! {

pub const BOARD_SIZE: usize = 8;

/// The eight directions `(d_row, d_col)`.
pub const DIRECTIONS: [(i32, i32); 8] = [
    (-1, -1),
    (-1, 0),
    (-1, 1),
    (0, -1),
    (0, 1),
    (1, -1),
    (1, 0),
    (1, 1),
];

#[derive(Clone, Copy)]
pub struct Board {
    pub cells: [[Option<Player>; 8]; 8],
}

/// The squares where the player to move may play.
pub struct ValidMoves(pub Vec<(usize, usize)>);

/// `Player` had no valid move and passes.
#[derive(Debug)]
pub struct PassEvent(pub Player);

/// Stones still to be turned, one at a time, after a stone was placed.
pub struct FlipQueue {
    pub flips: VecDeque<(usize, usize)>,
    pub player: Player,
}

// ---------------------------------------------------------------------------
// Model
// ---------------------------------------------------------------------------

/// The board as a sequence of rows.
pub open spec fn grid(cells: [[Option<Player>; 8]; 8]) -> Seq<Seq<Option<Player>>> {
    Seq::new(8, |r: int| cells@[r]@)
}

pub open spec fn on_board(p: (int, int)) -> bool {
    0 <= p.0 < 8 && 0 <= p.1 < 8
}

pub open spec fn at(g: Seq<Seq<Option<Player>>>, p: (int, int)) -> Option<Player> {
    g[p.0][p.1]
}

/// The square `k` steps from `(row, col)` in direction `d`.
pub open spec fn ray_cell(row: int, col: int, d: int, k: int) -> (int, int) {
    if d == 0 {
        (row - k, col - k)
    } else if d == 1 {
        (row - k, col)
    } else if d == 2 {
        (row - k, col + k)
    } else if d == 3 {
        (row, col - k)
    } else if d == 4 {
        (row, col + k)
    } else if d == 5 {
        (row + k, col - k)
    } else if d == 6 {
        (row + k, col)
    } else {
        (row + k, col + k)
    }
}

/// Length of the unbroken run of `opp` stones starting `k` steps away.
pub open spec fn opp_run(g: Seq<Seq<Option<Player>>>, row: int, col: int, d: int, opp: Player, k: int) -> int
    decreases 9 - k,
{
    if k < 1 || k > 8 {
        0
    } else {
        let p = ray_cell(row, col, d, k);
        if on_board(p) && at(g, p) == Some(opp) {
            1 + opp_run(g, row, col, d, opp, k + 1)
        } else {
            0
        }
    }
}

/// How many stones a stone of `player` on `(row, col)` flanks in direction `d`.
pub open spec fn dir_count(g: Seq<Seq<Option<Player>>>, row: int, col: int, d: int, player: Player) -> int {
    let n = opp_run(g, row, col, d, player.other(), 1);
    let end = ray_cell(row, col, d, n + 1);
    if n > 0 && on_board(end) && at(g, end) == Some(player) {
        n
    } else {
        0
    }
}

pub open spec fn as_pos(p: (int, int)) -> (usize, usize) {
    (p.0 as usize, p.1 as usize)
}

/// The flanked stones in direction `d`, nearest first.
pub open spec fn dir_flips(g: Seq<Seq<Option<Player>>>, row: int, col: int, d: int, player: Player) -> Seq<
    (usize, usize),
> {
    Seq::new(dir_count(g, row, col, d, player) as nat, |j: int| as_pos(ray_cell(row, col, d, j + 1)))
}

/// The flanked stones of the first `n` directions.
pub open spec fn flips_upto(g: Seq<Seq<Option<Player>>>, row: int, col: int, player: Player, n: int) -> Seq<
    (usize, usize),
>
    decreases n,
{
    if n <= 0 {
        seq![]
    } else {
        flips_upto(g, row, col, player, n - 1) + dir_flips(g, row, col, n - 1, player)
    }
}

/// Every stone turned by a stone of `player` on `(row, col)`, direction by
/// direction, nearest first.
pub open spec fn flips(g: Seq<Seq<Option<Player>>>, row: int, col: int, player: Player) -> Seq<(usize, usize)> {
    flips_upto(g, row, col, player, 8)
}

/// A stone of `player` on `(row, col)` flanks something.
pub open spec fn flanks(g: Seq<Seq<Option<Player>>>, row: int, col: int, player: Player) -> bool {
    exists|d: int| 0 <= d < 8 && #[trigger] dir_count(g, row, col, d, player) > 0
}

pub open spec fn is_valid(g: Seq<Seq<Option<Player>>>, row: int, col: int, player: Player) -> bool {
    g[row][col] is None && flanks(g, row, col, player)
}

/// The valid squares among the first `n` squares in row-major order.
pub open spec fn valid_upto(g: Seq<Seq<Option<Player>>>, player: Player, n: int) -> Seq<(usize, usize)>
    decreases n,
{
    if n <= 0 {
        seq![]
    } else {
        let r = (n - 1) / 8;
        let c = (n - 1) % 8;
        if is_valid(g, r, c, player) {
            valid_upto(g, player, n - 1).push((r as usize, c as usize))
        } else {
            valid_upto(g, player, n - 1)
        }
    }
}

/// All valid moves of `player`, row by row.
pub open spec fn legal_squares(g: Seq<Seq<Option<Player>>>, player: Player) -> Seq<(usize, usize)> {
    valid_upto(g, player, 64)
}

/// `g` with the squares in `s` turned to `player`, one after the other.
pub open spec fn apply_flips(g: Seq<Seq<Option<Player>>>, s: Seq<(usize, usize)>, player: Player) -> Seq<
    Seq<Option<Player>>,
>
    decreases s.len(),
{
    if s.len() == 0 {
        g
    } else {
        let (r, c) = s[0];
        apply_flips(g.update(r as int, g[r as int].update(c as int, Some(player))), s.drop_first(), player)
    }
}

/// `g` with a stone of `player` on `(row, col)`.
pub open spec fn with_stone(g: Seq<Seq<Option<Player>>>, row: int, col: int, player: Player) -> Seq<
    Seq<Option<Player>>,
> {
    g.update(row, g[row].update(col, Some(player)))
}

/// The board after `player` places a stone on `(row, col)`: that square and
/// every flanked stone belong to `player`, the rest is unchanged.
pub open spec fn placed(g: Seq<Seq<Option<Player>>>, row: int, col: int, player: Player) -> Seq<
    Seq<Option<Player>>,
> {
    let f = flips(g, row, col, player);
    Seq::new(
        8,
        |r: int|
            Seq::new(
                8,
                |c: int|
                    if (r == row && c == col) || f.contains((r as usize, c as usize)) {
                        Some(player)
                    } else {
                        g[r][c]
                    },
            ),
    )
}

/// Stones of `player` among the first `n` squares.
pub open spec fn count_upto(g: Seq<Seq<Option<Player>>>, player: Player, n: int) -> int
    decreases n,
{
    if n <= 0 {
        0
    } else {
        count_upto(g, player, n - 1) + if g[(n - 1) / 8][(n - 1) % 8] == Some(player) {
            1int
        } else {
            0
        }
    }
}

pub open spec fn start_grid() -> Seq<Seq<Option<Player>>> {
    Seq::new(
        8,
        |r: int|
            Seq::new(
                8,
                |c: int|
                    if (r == 3 && c == 3) || (r == 4 && c == 4) {
                        Some(Player::White)
                    } else if (r == 3 && c == 4) || (r == 4 && c == 3) {
                        Some(Player::Black)
                    } else {
                        None
                    },
            ),
    )
}

/// Neither player can move.
pub open spec fn game_over(g: Seq<Seq<Option<Player>>>) -> bool {
    legal_squares(g, Player::Black).len() == 0 && legal_squares(g, Player::White).len() == 0
}

// ---------------------------------------------------------------------------
// Facts about rays
// ---------------------------------------------------------------------------

proof fn lemma_direction(d: int, row: int, col: int, k: int)
    requires
        0 <= d < 8,
    ensures
        ray_cell(row, col, d, k + 1) == (
            ray_cell(row, col, d, k).0 + DIRECTIONS@[d].0,
            ray_cell(row, col, d, k).1 + DIRECTIONS@[d].1,
        ),
        ray_cell(row, col, d, 1) == (row + DIRECTIONS@[d].0, col + DIRECTIONS@[d].1),
        ray_cell(row, col, d, 0) == (row, col),
{
    if d == 0 {
    } else if d == 1 {
    } else if d == 2 {
    } else if d == 3 {
    } else if d == 4 {
    } else if d == 5 {
    } else if d == 6 {
    } else {
    }
}

/// A ray leaves the board within seven steps.
proof fn lemma_ray_short(row: int, col: int, d: int, k: int)
    requires
        on_board((row, col)),
        0 <= d < 8,
        k >= 1,
        on_board(ray_cell(row, col, d, k)),
    ensures
        k <= 7,
{
}

/// The run counted from step 1 is the opponent prefix plus the run from `k`.
proof fn lemma_run_prefix(g: Seq<Seq<Option<Player>>>, row: int, col: int, d: int, opp: Player, k: int)
    requires
        1 <= k <= 9,
        forall|j: int|
            1 <= j < k ==> on_board(#[trigger] ray_cell(row, col, d, j)) && at(g, ray_cell(row, col, d, j))
                == Some(opp),
    ensures
        opp_run(g, row, col, d, opp, 1) == (k - 1) + opp_run(g, row, col, d, opp, k),
    decreases k,
{
    if k > 1 {
        lemma_run_prefix(g, row, col, d, opp, k - 1);
        assert(on_board(ray_cell(row, col, d, k - 1)));
    }
}

pub proof fn lemma_valid_upto(g: Seq<Seq<Option<Player>>>, player: Player, n: int)
    requires
        0 <= n <= 64,
    ensures
        valid_upto(g, player, n).len() <= n,
        forall|k: int|
            0 <= k < valid_upto(g, player, n).len() ==> {
                let (r, c) = #[trigger] valid_upto(g, player, n)[k];
                r < 8 && c < 8 && is_valid(g, r as int, c as int, player)
            },
    decreases n,
{
    if n > 0 {
        lemma_valid_upto(g, player, n - 1);
    }
}

/// The stones a move turns are on the board and belong to the opponent.
pub proof fn lemma_flips_are_opponent(g: Seq<Seq<Option<Player>>>, row: int, col: int, player: Player, n: int)
    requires
        on_board((row, col)),
        0 <= n <= 8,
    ensures
        forall|k: int|
            0 <= k < flips_upto(g, row, col, player, n).len() ==> {
                let (r, c) = #[trigger] flips_upto(g, row, col, player, n)[k];
                &&& r < 8 && c < 8
                &&& g[r as int][c as int] == Some(player.other())
            },
    decreases n,
{
    if n > 0 {
        lemma_flips_are_opponent(g, row, col, player, n - 1);
        let d = n - 1;
        let m = dir_count(g, row, col, d, player);
        if m > 0 {
            lemma_run_all(g, row, col, d, player.other(), 1);
        }
        let a = flips_upto(g, row, col, player, n - 1);
        let b = dir_flips(g, row, col, d, player);
        assert forall|k: int| 0 <= k < flips_upto(g, row, col, player, n).len() implies {
            let (r, c) = #[trigger] flips_upto(g, row, col, player, n)[k];
            &&& r < 8 && c < 8
            &&& g[r as int][c as int] == Some(player.other())
        } by {
            if k >= a.len() {
                let j = k - a.len();
                assert(flips_upto(g, row, col, player, n)[k] == b[j]);
                assert(1 <= j + 1 <= opp_run(g, row, col, d, player.other(), 1));
            } else {
                assert(flips_upto(g, row, col, player, n)[k] == a[k]);
            }
        }
    }
}

/// Every square within the run is an opponent stone on the board.
proof fn lemma_run_all(g: Seq<Seq<Option<Player>>>, row: int, col: int, d: int, opp: Player, k: int)
    requires
        1 <= k <= 9,
    ensures
        forall|j: int|
            k <= j < k + opp_run(g, row, col, d, opp, k) ==> on_board(#[trigger] ray_cell(row, col, d, j))
                && at(g, ray_cell(row, col, d, j)) == Some(opp),
    decreases 9 - k,
{
    if 1 <= k <= 8 {
        let p = ray_cell(row, col, d, k);
        if on_board(p) && at(g, p) == Some(opp) {
            lemma_run_all(g, row, col, d, opp, k + 1);
        }
    }
}

/// Turning the squares of `s` one by one sets exactly those squares.
proof fn lemma_apply_flips(g: Seq<Seq<Option<Player>>>, s: Seq<(usize, usize)>, player: Player)
    requires
        g.len() == 8,
        forall|r: int| 0 <= r < 8 ==> #[trigger] g[r].len() == 8,
        forall|k: int| 0 <= k < s.len() ==> (#[trigger] s[k]).0 < 8 && s[k].1 < 8,
    ensures
        apply_flips(g, s, player).len() == 8,
        forall|r: int| 0 <= r < 8 ==> #[trigger] apply_flips(g, s, player)[r].len() == 8,
        forall|r: int, c: int|
            0 <= r < 8 && 0 <= c < 8 ==> #[trigger] apply_flips(g, s, player)[r][c] == if s.contains(
                (r as usize, c as usize),
            ) {
                Some(player)
            } else {
                g[r][c]
            },
    decreases s.len(),
{
    if s.len() > 0 {
        let (r0, c0) = s[0];
        let h = g.update(r0 as int, g[r0 as int].update(c0 as int, Some(player)));
        let t = s.drop_first();
        assert forall|k: int| 0 <= k < t.len() implies (#[trigger] t[k]).0 < 8 && t[k].1 < 8 by {
            assert(t[k] == s[k + 1]);
        }
        assert forall|r: int| 0 <= r < 8 implies #[trigger] h[r].len() == 8 by {}
        lemma_apply_flips(h, t, player);
        assert forall|r: int, c: int| 0 <= r < 8 && 0 <= c < 8 implies #[trigger] apply_flips(g, s, player)[r][c]
            == if s.contains((r as usize, c as usize)) {
            Some(player)
        } else {
            g[r][c]
        } by {
            let p = (r as usize, c as usize);
            if t.contains(p) {
                let k = choose|k: int| 0 <= k < t.len() && t[k] == p;
                assert(s[k + 1] == p);
            } else if s.contains(p) {
                let k = choose|k: int| 0 <= k < s.len() && s[k] == p;
                if k > 0 {
                    assert(t[k - 1] == p);
                }
            }
        }
    }
}

/// Turning the flanked stones one by one after putting the stone down gives
/// the board of `placed`.
pub proof fn lemma_flips_then_placed(g: Seq<Seq<Option<Player>>>, row: int, col: int, player: Player)
    requires
        g.len() == 8,
        forall|r: int| 0 <= r < 8 ==> #[trigger] g[r].len() == 8,
        on_board((row, col)),
    ensures
        apply_flips(with_stone(g, row, col, player), flips(g, row, col, player), player) =~~= placed(
            g,
            row,
            col,
            player,
        ),
{
    let f = flips(g, row, col, player);
    let h = with_stone(g, row, col, player);
    lemma_flips_are_opponent(g, row, col, player, 8);
    assert forall|k: int| 0 <= k < f.len() implies (#[trigger] f[k]).0 < 8 && f[k].1 < 8 by {}
    assert forall|r: int| 0 <= r < 8 implies #[trigger] h[r].len() == 8 by {}
    lemma_apply_flips(h, f, player);
}

// ---------------------------------------------------------------------------
// Operations
// ---------------------------------------------------------------------------

impl Board {
    /// The starting position: White on d4 and e5, Black on e4 and d5.
    pub fn new() -> (b: Board)
        ensures
            grid(b.cells) == start_grid(),
    {
        let e: Option<Player> = None;
        let w: Option<Player> = Some(Player::White);
        let k: Option<Player> = Some(Player::Black);
        let empty_row: [Option<Player>; 8] = [e, e, e, e, e, e, e, e];
        let mut cells: [[Option<Player>; 8]; 8] = [
            empty_row,
            empty_row,
            empty_row,
            empty_row,
            empty_row,
            empty_row,
            empty_row,
            empty_row,
        ];
        let m = BOARD_SIZE / 2;
        let mut row = cells[m - 1];
        row[m - 1] = w;
        row[m] = k;
        cells[m - 1] = row;
        let mut row = cells[m];
        row[m - 1] = k;
        row[m] = w;
        cells[m] = row;
        assert forall|r: int| 0 <= r < 8 implies #[trigger] grid(cells)[r] =~= start_grid()[r] by {}
        assert(grid(cells) =~= start_grid());
        Board { cells }
    }
}

impl Default for Board {
    fn default() -> (b: Board)
        ensures
            grid(b.cells) == start_grid(),
    {
        Board::new()
    }
}

impl Default for ValidMoves {
    fn default() -> (v: ValidMoves)
        ensures
            v.0@.len() == 0,
    {
        ValidMoves(Vec::new())
    }
}

/// Whether a stone of `player` on `(row, col)` would flank at least one stone.
pub fn can_flip(board: &Board, row: usize, col: usize, player: Player) -> (r: bool)
    requires
        row < 8,
        col < 8,
    ensures
        r == flanks(grid(board.cells), row as int, col as int, player),
{
    let ghost g = grid(board.cells);
    let opp = player.opponent();
    let mut d: usize = 0;
    while d < 8
        invariant
            d <= 8,
            row < 8,
            col < 8,
            g == grid(board.cells),
            opp == player.other(),
            forall|e: int| 0 <= e < d ==> #[trigger] dir_count(g, row as int, col as int, e, player) == 0,
        decreases 8 - d,
    {
        let (dr, dc) = DIRECTIONS[d];
        proof {
            lemma_direction(d as int, row as int, col as int, 0);
        }
        let mut r: i32 = row as i32 + dr;
        let mut c: i32 = col as i32 + dc;
        let mut found_opp = false;
        let mut stop = false;
        let ghost mut k: int = 1;
        while !stop && r >= 0 && r < 8 && c >= 0 && c < 8
            invariant
                d < 8,
                row < 8,
                col < 8,
                g == grid(board.cells),
                opp == player.other(),
                (dr, dc) == DIRECTIONS@[d as int],
                1 <= k <= 8,
                (r as int, c as int) == ray_cell(row as int, col as int, d as int, k),
                found_opp == (k > 1),
                forall|j: int|
                    1 <= j < k ==> on_board(#[trigger] ray_cell(row as int, col as int, d as int, j)) && at(
                        g,
                        ray_cell(row as int, col as int, d as int, j),
                    ) == Some(opp),
                stop ==> on_board((r as int, c as int)) && at(g, (r as int, c as int)) != Some(opp) && !(k > 1
                    && at(g, (r as int, c as int)) == Some(player)),
            decreases 8 - k + (if stop {
                0int
            } else {
                1
            }),
        {
            proof {
                lemma_ray_short(row as int, col as int, d as int, k);
                lemma_direction(d as int, row as int, col as int, k);
            }
            match board.cells[r as usize][c as usize] {
                Some(p) => {
                    if p == opp {
                        found_opp = true;
                        r += dr;
                        c += dc;
                        proof {
                            k = k + 1;
                        }
                    } else {
                        if found_opp {
                            proof {
                                lemma_run_prefix(g, row as int, col as int, d as int, opp, k);
                                assert(dir_count(g, row as int, col as int, d as int, player) > 0);
                            }
                            return true;
                        }
                        stop = true;
                    }
                },
                None => {
                    stop = true;
                },
            }
        }
        proof {
            lemma_run_prefix(g, row as int, col as int, d as int, opp, k);
            assert(dir_count(g, row as int, col as int, d as int, player) == 0);
        }
        d += 1;
    }
    false
}

/// The squares where `player` may play, row by row.
pub fn get_valid_moves(board: &Board, player: Player) -> (moves: Vec<(usize, usize)>)
    ensures
        moves@ == legal_squares(grid(board.cells), player),
{
    let ghost g = grid(board.cells);
    let mut moves: Vec<(usize, usize)> = Vec::new();
    let mut row: usize = 0;
    while row < BOARD_SIZE
        invariant
            row <= 8,
            g == grid(board.cells),
            moves@ == valid_upto(g, player, (row * 8) as int),
        decreases 8 - row,
    {
        let mut col: usize = 0;
        while col < BOARD_SIZE
            invariant
                row < 8,
                col <= 8,
                g == grid(board.cells),
                moves@ == valid_upto(g, player, (row * 8 + col) as int),
            decreases 8 - col,
        {
            assert((row * 8 + col) / 8 == row && (row * 8 + col) % 8 == col);
            if board.cells[row][col].is_none() && can_flip(board, row, col, player) {
                moves.push((row, col));
            }
            col += 1;
        }
        row += 1;
    }
    moves
}

/// The stones that a stone of `player` on `(row, col)` would turn, direction
/// by direction, nearest first; the board is not changed.
pub fn get_flips(board: &Board, row: usize, col: usize, player: Player) -> (all_flips: Vec<(usize, usize)>)
    requires
        row < 8,
        col < 8,
    ensures
        all_flips@ == flips(grid(board.cells), row as int, col as int, player),
{
    let ghost g = grid(board.cells);
    let opp = player.opponent();
    let mut all_flips: Vec<(usize, usize)> = Vec::new();
    let mut d: usize = 0;
    while d < 8
        invariant
            d <= 8,
            row < 8,
            col < 8,
            g == grid(board.cells),
            opp == player.other(),
            all_flips@ == flips_upto(g, row as int, col as int, player, d as int),
        decreases 8 - d,
    {
        let (dr, dc) = DIRECTIONS[d];
        proof {
            lemma_direction(d as int, row as int, col as int, 0);
        }
        let mut line_flips: Vec<(usize, usize)> = Vec::new();
        let mut r: i32 = row as i32 + dr;
        let mut c: i32 = col as i32 + dc;
        let mut closed = false;
        let mut stop = false;
        let ghost mut k: int = 1;
        while !stop && r >= 0 && r < 8 && c >= 0 && c < 8
            invariant
                d < 8,
                row < 8,
                col < 8,
                g == grid(board.cells),
                opp == player.other(),
                (dr, dc) == DIRECTIONS@[d as int],
                1 <= k <= 8,
                (r as int, c as int) == ray_cell(row as int, col as int, d as int, k),
                line_flips@ == Seq::new(
                    (k - 1) as nat,
                    |j: int| as_pos(ray_cell(row as int, col as int, d as int, j + 1)),
                ),
                forall|j: int|
                    1 <= j < k ==> on_board(#[trigger] ray_cell(row as int, col as int, d as int, j)) && at(
                        g,
                        ray_cell(row as int, col as int, d as int, j),
                    ) == Some(opp),
                !stop ==> !closed,
                stop ==> on_board((r as int, c as int)) && at(g, (r as int, c as int)) != Some(opp),
                stop ==> (closed <==> at(g, (r as int, c as int)) == Some(player)),
            decreases 8 - k + (if stop {
                0int
            } else {
                1
            }),
        {
            proof {
                lemma_ray_short(row as int, col as int, d as int, k);
                lemma_direction(d as int, row as int, col as int, k);
            }
            match board.cells[r as usize][c as usize] {
                Some(p) => {
                    if p == opp {
                        line_flips.push((r as usize, c as usize));
                        r += dr;
                        c += dc;
                        proof {
                            k = k + 1;
                        }
                        assert(line_flips@ =~= Seq::new(
                            (k - 1) as nat,
                            |j: int| as_pos(ray_cell(row as int, col as int, d as int, j + 1)),
                        ));
                    } else {
                        closed = true;
                        stop = true;
                    }
                },
                None => {
                    stop = true;
                },
            }
        }
        proof {
            lemma_run_prefix(g, row as int, col as int, d as int, opp, k);
        }
        if closed {
            let mut line_flips = line_flips;
            all_flips.append(&mut line_flips);
        }
        proof {
            let m = dir_count(g, row as int, col as int, d as int, player);
            if closed {
                assert(m == k - 1);
            } else {
                assert(m == 0);
            }
            assert(all_flips@ =~= flips_upto(g, row as int, col as int, player, d + 1));
        }
        d += 1;
    }
    all_flips
}

/// Places a stone of `player` on `(row, col)` and turns every stone it
/// flanks.
pub fn place_stone(board: &mut Board, row: usize, col: usize, player: Player)
    requires
        row < 8,
        col < 8,
    ensures
        grid(final(board).cells) == placed(grid(old(board).cells), row as int, col as int, player),
{
    let ghost g = grid(board.cells);
    let to_flip = get_flips(board, row, col, player);
    let mut line = board.cells[row];
    line[col] = Some(player);
    board.cells[row] = line;
    assert(grid(board.cells) =~~= with_stone(g, row as int, col as int, player));
    proof {
        lemma_flips_are_opponent(g, row as int, col as int, player, 8);
        lemma_flips_then_placed(g, row as int, col as int, player);
        assert(to_flip@.skip(0) =~= to_flip@);
    }
    let mut i: usize = 0;
    while i < to_flip.len()
        invariant
            i <= to_flip@.len(),
            to_flip@ == flips(g, row as int, col as int, player),
            forall|k: int| 0 <= k < to_flip@.len() ==> (#[trigger] to_flip@[k]).0 < 8 && to_flip@[k].1 < 8,
            apply_flips(grid(board.cells), to_flip@.skip(i as int), player) =~~= placed(
                g,
                row as int,
                col as int,
                player,
            ),
        decreases to_flip.len() - i,
    {
        let (fr, fc) = to_flip[i];
        let ghost before = grid(board.cells);
        let mut line = board.cells[fr];
        line[fc] = Some(player);
        board.cells[fr] = line;
        proof {
            let s = to_flip@.skip(i as int);
            assert(s[0] == (fr, fc));
            assert(s.drop_first() =~= to_flip@.skip(i + 1));
            assert(grid(board.cells) =~~= before.update(fr as int, before[fr as int].update(fc as int, Some(player))));
        }
        i += 1;
    }
    assert(to_flip@.skip(to_flip@.len() as int) =~= Seq::<(usize, usize)>::empty());
    assert(grid(board.cells) =~~= placed(g, row as int, col as int, player));
}

/// Stones of each colour: `(black, white)`.
pub fn count_stones(board: &Board) -> (r: (u32, u32))
    ensures
        r.0 == count_upto(grid(board.cells), Player::Black, 64),
        r.1 == count_upto(grid(board.cells), Player::White, 64),
{
    let ghost g = grid(board.cells);
    let mut black: u32 = 0;
    let mut white: u32 = 0;
    let mut row: usize = 0;
    while row < BOARD_SIZE
        invariant
            row <= 8,
            g == grid(board.cells),
            black == count_upto(g, Player::Black, (row * 8) as int),
            white == count_upto(g, Player::White, (row * 8) as int),
            black <= row * 8,
            white <= row * 8,
        decreases 8 - row,
    {
        let mut col: usize = 0;
        while col < BOARD_SIZE
            invariant
                row < 8,
                col <= 8,
                g == grid(board.cells),
                black == count_upto(g, Player::Black, (row * 8 + col) as int),
                white == count_upto(g, Player::White, (row * 8 + col) as int),
                black <= row * 8 + col,
                white <= row * 8 + col,
            decreases 8 - col,
        {
            assert((row * 8 + col) / 8 == row && (row * 8 + col) % 8 == col);
            match board.cells[row][col] {
                Some(Player::Black) => black += 1,
                Some(Player::White) => white += 1,
                None => {},
            }
            col += 1;
        }
        row += 1;
    }
    (black, white)
}

/// Neither player has a valid move.
pub fn is_game_over(board: &Board) -> (r: bool)
    ensures
        r == game_over(grid(board.cells)),
{
    get_valid_moves(board, Player::Black).len() == 0 && get_valid_moves(board, Player::White).len() == 0
}

} // verus!

verus! {

/// Hands the turn to the opponent; when the opponent has no valid move it
/// passes, the turn stays and the pass is reported.
pub fn advance_turn(board: &Board, valid_moves: &mut ValidMoves, turn: &mut CurrentTurn) -> (pass: Option<
    PassEvent,
>)
    ensures
        legal_squares(grid(board.cells), old(turn).0.other()).len() == 0 ==> {
            &&& pass matches Some(e) && e.0 == old(turn).0.other()
            &&& final(turn).0 == old(turn).0
            &&& final(valid_moves).0@ == legal_squares(grid(board.cells), old(turn).0)
        },
        legal_squares(grid(board.cells), old(turn).0.other()).len() != 0 ==> {
            &&& pass is None
            &&& final(turn).0 == old(turn).0.other()
            &&& final(valid_moves).0@ == legal_squares(grid(board.cells), old(turn).0.other())
        },
{
    let next_player = turn.0.opponent();
    let moves = get_valid_moves(board, next_player);
    if moves.len() == 0 {
        valid_moves.0 = get_valid_moves(board, turn.0);
        Some(PassEvent(next_player))
    } else {
        turn.0 = next_player;
        valid_moves.0 = moves;
        None
    }
}

/// What follows once the stones of a move have been turned.
pub enum TurnOutcome {
    /// Neither player can move: the final counts.
    Over(GameResult),
    /// The opponent had to pass.
    Passed(PassEvent),
    /// The opponent moves next.
    Next,
}

/// Ends the game when neither player can move, else advances the turn.
pub fn finish_turn(board: &Board, valid_moves: &mut ValidMoves, turn: &mut CurrentTurn) -> (r: TurnOutcome)
    ensures
        game_over(grid(board.cells)) ==> {
            &&& r matches TurnOutcome::Over(res) && res.black_score == count_upto(
                grid(board.cells),
                Player::Black,
                64,
            ) && res.white_score == count_upto(grid(board.cells), Player::White, 64)
            &&& final(turn).0 == old(turn).0
            &&& final(valid_moves).0@ == old(valid_moves).0@
        },
        !game_over(grid(board.cells)) && legal_squares(grid(board.cells), old(turn).0.other()).len() == 0
            ==> {
            &&& r matches TurnOutcome::Passed(e) && e.0 == old(turn).0.other()
            &&& final(turn).0 == old(turn).0
            &&& final(valid_moves).0@ == legal_squares(grid(board.cells), old(turn).0)
        },
        !game_over(grid(board.cells)) && legal_squares(grid(board.cells), old(turn).0.other()).len() != 0
            ==> {
            &&& r is Next
            &&& final(turn).0 == old(turn).0.other()
            &&& final(valid_moves).0@ == legal_squares(grid(board.cells), old(turn).0.other())
        },
{
    if is_game_over(board) {
        let (black, white) = count_stones(board);
        return TurnOutcome::Over(GameResult { black_score: black, white_score: white });
    }
    match advance_turn(board, valid_moves, turn) {
        Some(e) => TurnOutcome::Passed(e),
        None => TurnOutcome::Next,
    }
}

/// Puts a stone of `player` on `(row, col)` and queues the stones it turns,
/// nearest first in each direction, to be turned one at a time.
pub fn begin_placement(board: &mut Board, row: usize, col: usize, player: Player) -> (q: FlipQueue)
    requires
        row < 8,
        col < 8,
    ensures
        grid(final(board).cells) == with_stone(grid(old(board).cells), row as int, col as int, player),
        q.flips@ == flips(grid(old(board).cells), row as int, col as int, player),
        q.player == player,
{
    let ghost g = grid(board.cells);
    let flips = get_flips(board, row, col, player);
    let mut line = board.cells[row];
    line[col] = Some(player);
    board.cells[row] = line;
    assert(grid(board.cells) =~~= with_stone(g, row as int, col as int, player));
    let mut queue: VecDeque<(usize, usize)> = VecDeque::new();
    let mut i: usize = 0;
    while i < flips.len()
        invariant
            i <= flips@.len(),
            queue@ == flips@.take(i as int),
        decreases flips.len() - i,
    {
        queue.push_back(flips[i]);
        i += 1;
        assert(queue@ =~= flips@.take(i as int));
    }
    assert(flips@.take(flips@.len() as int) =~= flips@);
    FlipQueue { flips: queue, player }
}

/// Turns the next queued stone. Returns whether the queue is now empty.
/// Turning what is left of the queue gives the same board before and after.
pub fn step_flip(board: &mut Board, queue: &mut FlipQueue) -> (done: bool)
    requires
        forall|k: int| 0 <= k < old(queue).flips@.len() ==> (#[trigger] old(queue).flips@[k]).0 < 8
            && old(queue).flips@[k].1 < 8,
    ensures
        final(queue).player == old(queue).player,
        old(queue).flips@.len() == 0 ==> final(queue).flips@ == old(queue).flips@ && final(board).cells
            == old(board).cells,
        old(queue).flips@.len() > 0 ==> {
            let (r, c) = old(queue).flips@[0];
            &&& final(queue).flips@ == old(queue).flips@.drop_first()
            &&& grid(final(board).cells) == with_stone(grid(old(board).cells), r as int, c as int, old(queue).player)
        },
        apply_flips(grid(final(board).cells), final(queue).flips@, final(queue).player) == apply_flips(
            grid(old(board).cells),
            old(queue).flips@,
            old(queue).player,
        ),
        done == (final(queue).flips@.len() == 0),
{
    let ghost g = grid(board.cells);
    if let Some((r, c)) = queue.flips.pop_front() {
        let mut line = board.cells[r];
        line[c] = Some(queue.player);
        board.cells[r] = line;
        assert(grid(board.cells) =~~= with_stone(g, r as int, c as int, queue.player));
        assert(queue.flips@ =~= old(queue).flips@.drop_first());
    }
    queue.flips.len() == 0
}

/// A click on `cell` by the player to move: ignored while the AI is to move
/// or when the square is not a valid move; otherwise the stone is put down
/// and its flips are queued.
pub fn play_click(
    board: &mut Board,
    valid_moves: &ValidMoves,
    turn: &CurrentTurn,
    game_mode: GameMode,
    cell: Option<(usize, usize)>,
) -> (q: Option<FlipQueue>)
    requires
        cell matches Some(p) ==> p.0 < 8 && p.1 < 8,
    ensures
        q is None ==> final(board).cells == old(board).cells,
        q is Some <==> {
            &&& !(game_mode == GameMode::PvAI && turn.0 == Player::White)
            &&& cell matches Some(p) && valid_moves.0@.contains(p)
        },
        q matches Some(fq) ==> {
            let (row, col) = cell.unwrap();
            &&& grid(final(board).cells) == with_stone(grid(old(board).cells), row as int, col as int, turn.0)
            &&& fq.flips@ == flips(grid(old(board).cells), row as int, col as int, turn.0)
            &&& fq.player == turn.0
        },
{
    if game_mode == GameMode::PvAI && turn.0 == Player::White {
        return None;
    }
    let (row, col) = match cell {
        Some(p) => p,
        None => return None,
    };
    let mut found = false;
    let mut i: usize = 0;
    while i < valid_moves.0.len()
        invariant
            i <= valid_moves.0@.len(),
            found == exists|k: int| 0 <= k < i && valid_moves.0@[k] == (row, col),
        decreases valid_moves.0.len() - i,
    {
        let (r, c) = valid_moves.0[i];
        if r == row && c == col {
            found = true;
        }
        i += 1;
    }
    if !found {
        return None;
    }
    Some(begin_placement(board, row, col, turn.0))
}

} // verus!

verus! {

/// Stones of either colour among the first `n` squares.
pub open spec fn stones_upto(g: Seq<Seq<Option<Player>>>, n: int) -> int
    decreases n,
{
    if n <= 0 {
        0
    } else {
        stones_upto(g, n - 1) + if g[(n - 1) / 8][(n - 1) % 8] is Some {
            1int
        } else {
            0
        }
    }
}

proof fn lemma_flips_len(g: Seq<Seq<Option<Player>>>, row: int, col: int, player: Player, n: int)
    requires
        0 <= n <= 8,
    ensures
        flips_upto(g, row, col, player, n).len() > 0 <==> exists|d: int|
            0 <= d < n && #[trigger] dir_count(g, row, col, d, player) > 0,
    decreases n,
{
    if n > 0 {
        lemma_flips_len(g, row, col, player, n - 1);
        if dir_count(g, row, col, n - 1, player) > 0 {
            assert(dir_count(g, row, col, n - 1, player) > 0);
        }
    }
}

/// Law: a square flanks some stone exactly when playing there turns at
/// least one stone; so a valid move always turns a stone.
pub proof fn flanking_means_turning(g: Seq<Seq<Option<Player>>>, row: int, col: int, player: Player)
    ensures
        flanks(g, row, col, player) <==> flips(g, row, col, player).len() > 0,
{
    lemma_flips_len(g, row, col, player, 8);
}

proof fn lemma_stones_upto(g: Seq<Seq<Option<Player>>>, h: Seq<Seq<Option<Player>>>, row: int, col: int, n: int)
    requires
        0 <= n <= 64,
        0 <= row < 8,
        0 <= col < 8,
        g[row][col] is None,
        h[row][col] is Some,
        forall|r: int, c: int|
            0 <= r < 8 && 0 <= c < 8 && !(r == row && c == col) ==> (#[trigger] h[r][c] is Some <==> g[r][c] is Some),
    ensures
        stones_upto(h, n) == stones_upto(g, n) + if row * 8 + col < n {
            1int
        } else {
            0
        },
    decreases n,
{
    if n > 0 {
        lemma_stones_upto(g, h, row, col, n - 1);
        let r = (n - 1) / 8;
        let c = (n - 1) % 8;
        if r == row && c == col {
            assert(n - 1 == row * 8 + col);
        } else {
            assert(n - 1 != row * 8 + col);
            assert(h[r][c] is Some <==> g[r][c] is Some);
        }
    }
}

/// Law: placing a stone on an empty square adds exactly one stone to the
/// board; turning stones changes colours, never the count.
pub proof fn placing_adds_one_stone(g: Seq<Seq<Option<Player>>>, row: int, col: int, player: Player)
    requires
        on_board((row, col)),
        g[row][col] is None,
    ensures
        stones_upto(placed(g, row, col, player), 64) == stones_upto(g, 64) + 1,
{
    let h = placed(g, row, col, player);
    let f = flips(g, row, col, player);
    lemma_flips_are_opponent(g, row, col, player, 8);
    assert forall|r: int, c: int| 0 <= r < 8 && 0 <= c < 8 && !(r == row && c == col) implies (#[trigger] h[r][c]
        is Some <==> g[r][c] is Some) by {
        if f.contains((r as usize, c as usize)) {
            let k = choose|k: int| 0 <= k < f.len() && f[k] == (r as usize, c as usize);
            assert(f[k] == (r as usize, c as usize));
        }
    }
    lemma_stones_upto(g, h, row, col, 64);
}

} // verus!
