//! Minesweeper on a 9x9 field with 10 mines, cells stored row by row.
//!
//! Mines are laid on the first reveal, never under the revealed square.
//! Revealing an empty square with no mine around it opens the whole region
//! reachable through such squares, stopping at flags and at squares already
//! open; revealing a mine loses the game and shows every mine; the game is
//! won once every square without a mine is open.

use vstd::prelude::*;

use crate::random::sample_indices;

verus! {

pub const ROWS: usize = 9;

pub const COLS: usize = 9;

pub const MINE_COUNT: usize = 10;

#[derive(Clone, Copy, PartialEq, Eq, Structural, Debug)]
pub struct Cell {
    pub is_mine: bool,
    pub is_revealed: bool,
    pub is_flagged: bool,
    pub adjacent_mines: u8,
}

impl Default for Cell {
    fn default() -> (c: Cell)
        ensures
            c == (Cell { is_mine: false, is_revealed: false, is_flagged: false, adjacent_mines: 0 }),
    {
        Cell { is_mine: false, is_revealed: false, is_flagged: false, adjacent_mines: 0 }
    }
}

#[derive(Clone, Copy, PartialEq, Eq, Structural, Debug)]
pub enum GameStatus {
    Playing,
    Won,
    Lost,
}

pub struct Board {
    pub cells: Vec<Cell>,
    pub mine_count: usize,
    pub flags_placed: usize,
    pub revealed_count: usize,
    pub status: GameStatus,
    pub initialized: bool,
}

// ---------------------------------------------------------------------------
// Model
// ---------------------------------------------------------------------------

/// Squares `a` and `b` (row-major indices) touch, diagonals included.
pub open spec fn adjacent(a: int, b: int) -> bool {
    &&& a != b
    &&& -1 <= a / 9 - b / 9 <= 1
    &&& -1 <= a % 9 - b % 9 <= 1
}

/// The `k`-th square of the 3x3 block around `(row, col)`.
pub open spec fn offset(row: int, col: int, k: int) -> (int, int) {
    (row + k / 3 - 1, col + k % 3 - 1)
}

pub open spec fn in_grid(p: (int, int)) -> bool {
    0 <= p.0 < 9 && 0 <= p.1 < 9
}

/// Neighbours of `(row, col)` among the first `k` squares of its 3x3 block.
pub open spec fn nbr_upto(row: int, col: int, k: int) -> Seq<usize>
    decreases k,
{
    if k <= 0 {
        seq![]
    } else {
        let p = offset(row, col, k - 1);
        if k - 1 != 4 && in_grid(p) {
            nbr_upto(row, col, k - 1).push((p.0 * 9 + p.1) as usize)
        } else {
            nbr_upto(row, col, k - 1)
        }
    }
}

/// Neighbours of `(row, col)`: row above left to right, then the same row,
/// then the row below.
pub open spec fn nbrs(row: int, col: int) -> Seq<usize> {
    nbr_upto(row, col, 9)
}

/// Mines among the squares of `list`.
pub open spec fn mines_in(s: Seq<Cell>, list: Seq<usize>) -> int
    decreases list.len(),
{
    if list.len() == 0 {
        0
    } else {
        mines_in(s, list.drop_last()) + if s[list.last() as int].is_mine {
            1int
        } else {
            0
        }
    }
}

/// Every square without a mine shows the number of mines around it.
pub open spec fn counts_consistent(s: Seq<Cell>) -> bool {
    forall|j: int| 0 <= j < 81 && !s[j].is_mine ==> (#[trigger] s[j]).adjacent_mines == mines_in(s, nbrs(j / 9, j % 9))
}

pub open spec fn revealed_upto(s: Seq<Cell>, n: int) -> int
    decreases n,
{
    if n <= 0 {
        0
    } else {
        revealed_upto(s, n - 1) + if s[n - 1].is_revealed {
            1int
        } else {
            0
        }
    }
}

/// Mines among the first `n` squares.
pub open spec fn mines_upto(s: Seq<Cell>, n: int) -> int
    decreases n,
{
    if n <= 0 {
        0
    } else {
        mines_upto(s, n - 1) + if s[n - 1].is_mine {
            1int
        } else {
            0
        }
    }
}

/// Numbers below `n` that occur in `chosen`.
pub open spec fn listed_upto(chosen: Seq<usize>, n: int) -> int
    decreases n,
{
    if n <= 0 {
        0
    } else {
        listed_upto(chosen, n - 1) + if chosen.contains((n - 1) as usize) {
            1int
        } else {
            0
        }
    }
}

pub open spec fn flagged_upto(s: Seq<Cell>, n: int) -> int
    decreases n,
{
    if n <= 0 {
        0
    } else {
        flagged_upto(s, n - 1) + if s[n - 1].is_flagged {
            1int
        } else {
            0
        }
    }
}

/// Neither open nor flagged.
pub open spec fn closed(s: Seq<Cell>, j: int) -> bool {
    0 <= j < 81 && !s[j].is_revealed && !s[j].is_flagged
}

/// A chain of closed squares, each but the last without a mine around it,
/// each touching the next.
pub open spec fn is_path(s: Seq<Cell>, p: Seq<int>) -> bool {
    &&& p.len() >= 1
    &&& forall|k: int| 0 <= k < p.len() ==> #[trigger] closed(s, p[k])
    &&& forall|k: int|
        0 <= k < p.len() - 1 ==> s[#[trigger] p[k]].adjacent_mines == 0 && adjacent(p[k], p[k + 1])
}

/// Revealing `start` opens `j`.
pub open spec fn reached(s: Seq<Cell>, start: int, j: int) -> bool {
    exists|p: Seq<int>| #[trigger] is_path(s, p) && p[0] == start && p.last() == j
}

/// The cells after the region reached from `start` is opened.
pub open spec fn flood(s: Seq<Cell>, start: int) -> Seq<Cell> {
    Seq::new(
        81,
        |j: int|
            Cell {
                is_mine: s[j].is_mine,
                is_revealed: s[j].is_revealed || reached(s, start, j),
                is_flagged: s[j].is_flagged,
                adjacent_mines: s[j].adjacent_mines,
            },
    )
}

/// Squares reached from `start` among the first `n`.
pub open spec fn reach_upto(s: Seq<Cell>, start: int, n: int) -> int
    decreases n,
{
    if n <= 0 {
        0
    } else {
        reach_upto(s, start, n - 1) + if reached(s, start, n - 1) {
            1int
        } else {
            0
        }
    }
}

/// The cells after a mine was hit: every mine is shown.
pub open spec fn all_mines_shown(s: Seq<Cell>) -> Seq<Cell> {
    Seq::new(
        81,
        |j: int|
            Cell {
                is_mine: s[j].is_mine,
                is_revealed: s[j].is_revealed || s[j].is_mine,
                is_flagged: s[j].is_flagged,
                adjacent_mines: s[j].adjacent_mines,
            },
    )
}

/// `a` is `b` after a right click on `i`: while playing, a square not
/// revealed gains or loses its flag and the flag counter follows; otherwise
/// nothing changes.
pub open spec fn flag_toggled(b: Board, i: int, a: Board) -> bool {
    if b.status != GameStatus::Playing || b.cells@[i].is_revealed {
        a == b
    } else {
        &&& a.cells@ == b.cells@.update(i, Cell { is_flagged: !b.cells@[i].is_flagged, ..b.cells@[i] })
        &&& a.flags_placed == if b.cells@[i].is_flagged {
            b.flags_placed - 1
        } else {
            b.flags_placed + 1
        }
        &&& a.mine_count == b.mine_count
        &&& a.revealed_count == b.revealed_count
        &&& a.status == b.status
        &&& a.initialized == b.initialized
    }
}

/// `a` is `b` after revealing `i` on a board whose mines are laid.
pub open spec fn reveal_step(b: Board, i: int, a: Board) -> bool {
    &&& a.mine_count == b.mine_count
    &&& a.flags_placed == b.flags_placed
    &&& a.initialized == b.initialized
    &&& if b.cells@[i].is_mine {
        &&& a.cells@ == all_mines_shown(b.cells@)
        &&& a.revealed_count == b.revealed_count
        &&& a.status == GameStatus::Lost
    } else {
        &&& a.cells@ == flood(b.cells@, i)
        &&& a.revealed_count == b.revealed_count + reach_upto(b.cells@, i, 81)
        &&& a.status == if a.revealed_count == 81 - b.mine_count {
            GameStatus::Won
        } else {
            b.status
        }
    }
}

/// `m` is `b` with mines laid: none on `safe`, the mines of `b` kept, the
/// counts around every square correct, the rest unchanged.
pub open spec fn laid_out(b: Board, m: Board, safe: int) -> bool {
    &&& m.cells@.len() == 81
    &&& m.mine_count == b.mine_count
    &&& m.flags_placed == b.flags_placed
    &&& m.revealed_count == b.revealed_count
    &&& m.status == b.status
    &&& m.initialized
    &&& !m.cells@[safe].is_mine
    &&& mines_upto(m.cells@, 81) == m.mine_count
    &&& counts_consistent(m.cells@)
    &&& forall|j: int|
        0 <= j < 81 ==> {
            &&& (#[trigger] m.cells@[j]).is_revealed == b.cells@[j].is_revealed
            &&& m.cells@[j].is_flagged == b.cells@[j].is_flagged
            &&& b.cells@[j].is_mine ==> m.cells@[j].is_mine
        }
}

/// Candidate number of square `j` when `safe` is left out.
pub open spec fn candidate_of(safe: int, j: int) -> int {
    if j < safe {
        j
    } else {
        j - 1
    }
}

/// Same mines, open squares and flags; only the counts may differ.
pub open spec fn same_marks(s: Seq<Cell>, t: Seq<Cell>) -> bool {
    &&& s.len() == 81
    &&& t.len() == 81
    &&& forall|j: int|
        0 <= j < 81 ==> (#[trigger] t[j]).is_mine == s[j].is_mine && t[j].is_revealed == s[j].is_revealed
            && t[j].is_flagged == s[j].is_flagged
}

/// The squares below `n` carry their count in `t`, the others that of `s`.
pub open spec fn counts_upto(s: Seq<Cell>, t: Seq<Cell>, n: int) -> bool {
    forall|j: int|
        0 <= j < 81 ==> (#[trigger] t[j]).adjacent_mines == if !s[j].is_mine && j < n {
            mines_in(s, nbrs(j / 9, j % 9))
        } else {
            s[j].adjacent_mines as int
        }
}

impl Board {
    pub open spec fn wf(&self) -> bool {
        &&& self.cells@.len() == 81
        &&& self.mine_count <= 80
        &&& self.revealed_count <= revealed_upto(self.cells@, 81)
        &&& self.flags_placed == flagged_upto(self.cells@, 81)
        &&& !self.initialized ==> forall|j: int| 0 <= j < 81 ==> !(#[trigger] self.cells@[j]).is_mine
    }
}

// ---------------------------------------------------------------------------
// Lemmas
// ---------------------------------------------------------------------------

proof fn lemma_nbr_upto(row: int, col: int, k: int)
    requires
        0 <= row < 9,
        0 <= col < 9,
        0 <= k <= 9,
    ensures
        nbr_upto(row, col, k).len() <= k,
        forall|m: int|
            0 <= m < nbr_upto(row, col, k).len() ==> {
                let j = #[trigger] nbr_upto(row, col, k)[m] as int;
                0 <= j < 81 && adjacent(row * 9 + col, j)
            },
        forall|t: int|
            0 <= t < k && t != 4 && in_grid(#[trigger] offset(row, col, t)) ==> nbr_upto(row, col, k).contains(
                (offset(row, col, t).0 * 9 + offset(row, col, t).1) as usize,
            ),
    decreases k,
{
    if k > 0 {
        lemma_nbr_upto(row, col, k - 1);
        let prev = nbr_upto(row, col, k - 1);
        let cur = nbr_upto(row, col, k);
        let p = offset(row, col, k - 1);
        if k - 1 != 4 && in_grid(p) {
            let j = p.0 * 9 + p.1;
            assert(j / 9 == p.0 && j % 9 == p.1);
            assert((row * 9 + col) / 9 == row && (row * 9 + col) % 9 == col);
            assert(cur[cur.len() - 1] == j as usize);
            assert forall|t: int|
                0 <= t < k && t != 4 && in_grid(#[trigger] offset(row, col, t)) implies cur.contains(
                (offset(row, col, t).0 * 9 + offset(row, col, t).1) as usize,
            ) by {
                if t < k - 1 {
                    let x = (offset(row, col, t).0 * 9 + offset(row, col, t).1) as usize;
                    let i = choose|i: int| 0 <= i < prev.len() && prev[i] == x;
                    assert(cur[i] == x);
                }
            }
            assert forall|m: int| 0 <= m < cur.len() implies {
                let j2 = #[trigger] cur[m] as int;
                0 <= j2 < 81 && adjacent(row * 9 + col, j2)
            } by {
                if m < prev.len() {
                    assert(cur[m] == prev[m]);
                }
            }
        }
    }
}

/// The neighbour list holds exactly the squares touching `(row, col)`.
pub proof fn lemma_nbrs(row: int, col: int)
    requires
        0 <= row < 9,
        0 <= col < 9,
    ensures
        nbrs(row, col).len() <= 8,
        forall|m: int|
            0 <= m < nbrs(row, col).len() ==> (#[trigger] nbrs(row, col)[m] as int) < 81 && adjacent(
                row * 9 + col,
                nbrs(row, col)[m] as int,
            ),
        forall|j: int| 0 <= j < 81 && adjacent(row * 9 + col, j) ==> #[trigger] nbrs(row, col).contains(j as usize),
{
    lemma_nbr_upto(row, col, 9);
    assert((row * 9 + col) / 9 == row && (row * 9 + col) % 9 == col);
    assert forall|j: int| 0 <= j < 81 && adjacent(row * 9 + col, j) implies #[trigger] nbrs(row, col).contains(
        j as usize,
    ) by {
        let t = (j / 9 - row + 1) * 3 + (j % 9 - col + 1);
        assert(t / 3 == j / 9 - row + 1 && t % 3 == j % 9 - col + 1);
        assert(offset(row, col, t) == (j / 9, j % 9));
        assert(j / 9 * 9 + j % 9 == j);
    }
    lemma_nbr_len(row, col, 9);
}

proof fn lemma_nbr_len(row: int, col: int, k: int)
    requires
        0 <= k <= 9,
    ensures
        nbr_upto(row, col, k).len() <= (if k > 4 {
            k - 1
        } else {
            k
        }),
    decreases k,
{
    if k > 0 {
        lemma_nbr_len(row, col, k - 1);
    }
}

proof fn lemma_mines_in_bound(s: Seq<Cell>, list: Seq<usize>)
    ensures
        0 <= mines_in(s, list) <= list.len(),
    decreases list.len(),
{
    if list.len() > 0 {
        lemma_mines_in_bound(s, list.drop_last());
    }
}

/// Counting is unchanged by changes that keep the counted property.
proof fn lemma_revealed_same(s: Seq<Cell>, t: Seq<Cell>, n: int)
    requires
        forall|j: int| 0 <= j < n ==> (#[trigger] s[j]).is_revealed == t[j].is_revealed,
    ensures
        revealed_upto(s, n) == revealed_upto(t, n),
    decreases n,
{
    if n > 0 {
        lemma_revealed_same(s, t, n - 1);
    }
}

proof fn lemma_flagged_same(s: Seq<Cell>, t: Seq<Cell>, n: int)
    requires
        forall|j: int| 0 <= j < n ==> (#[trigger] s[j]).is_flagged == t[j].is_flagged,
    ensures
        flagged_upto(s, n) == flagged_upto(t, n),
    decreases n,
{
    if n > 0 {
        lemma_flagged_same(s, t, n - 1);
    }
}

proof fn lemma_revealed_bounds(s: Seq<Cell>, n: int)
    requires
        0 <= n,
    ensures
        0 <= revealed_upto(s, n) <= n,
    decreases n,
{
    if n > 0 {
        lemma_revealed_bounds(s, n - 1);
    }
}

proof fn lemma_flagged_bounds(s: Seq<Cell>, n: int)
    requires
        0 <= n,
    ensures
        0 <= flagged_upto(s, n) <= n,
    decreases n,
{
    if n > 0 {
        lemma_flagged_bounds(s, n - 1);
    }
}

/// Opening one closed square adds one to the count of open squares.
proof fn lemma_revealed_one(s: Seq<Cell>, t: Seq<Cell>, i: int, n: int)
    requires
        0 <= i,
        !s[i].is_revealed,
        t[i].is_revealed,
        forall|j: int| 0 <= j < n && j != i ==> (#[trigger] s[j]).is_revealed == t[j].is_revealed,
    ensures
        revealed_upto(t, n) == revealed_upto(s, n) + if i < n {
            1int
        } else {
            0
        },
    decreases n,
{
    if n > 0 {
        lemma_revealed_one(s, t, i, n - 1);
    }
}

/// Flagging or unflagging one square moves the flag count by one.
proof fn lemma_flagged_one(s: Seq<Cell>, t: Seq<Cell>, i: int, n: int)
    requires
        0 <= i,
        s[i].is_flagged != t[i].is_flagged,
        forall|j: int| 0 <= j < n && j != i ==> (#[trigger] s[j]).is_flagged == t[j].is_flagged,
    ensures
        flagged_upto(t, n) == flagged_upto(s, n) + if i < n {
            if t[i].is_flagged {
                1int
            } else {
                -1
            }
        } else {
            0
        },
    decreases n,
{
    if n > 0 {
        lemma_flagged_one(s, t, i, n - 1);
    }
}

/// Opening more squares never lowers the count.
proof fn lemma_revealed_mono(s: Seq<Cell>, t: Seq<Cell>, n: int)
    requires
        forall|j: int| 0 <= j < n ==> (#[trigger] s[j]).is_revealed ==> t[j].is_revealed,
    ensures
        revealed_upto(s, n) <= revealed_upto(t, n),
    decreases n,
{
    if n > 0 {
        lemma_revealed_mono(s, t, n - 1);
    }
}

/// Opening the reached region adds the number of reached squares.
proof fn lemma_flood_count(s: Seq<Cell>, start: int, n: int)
    requires
        0 <= n <= 81,
        s.len() == 81,
    ensures
        revealed_upto(flood(s, start), n) == revealed_upto(s, n) + reach_upto(s, start, n),
    decreases n,
{
    if n > 0 {
        lemma_flood_count(s, start, n - 1);
        let j = n - 1;
        if reached(s, start, j) {
            let p = choose|p: Seq<int>| #[trigger] is_path(s, p) && p[0] == start && p.last() == j;
            assert(closed(s, p[p.len() - 1]));
        }
    }
}

/// A path extended by a closed neighbour of its zero-count end.
proof fn lemma_reach_step(s: Seq<Cell>, start: int, v: int, n: int)
    requires
        reached(s, start, v),
        s[v].adjacent_mines == 0,
        adjacent(v, n),
        closed(s, n),
    ensures
        reached(s, start, n),
{
    let p = choose|p: Seq<int>| #[trigger] is_path(s, p) && p[0] == start && p.last() == v;
    let q = p.push(n);
    assert forall|k: int| 0 <= k < q.len() implies #[trigger] closed(s, q[k]) by {
        if k < p.len() {
            assert(q[k] == p[k]);
        }
    }
    assert forall|k: int| 0 <= k < q.len() - 1 implies s[#[trigger] q[k]].adjacent_mines == 0 && adjacent(
        q[k],
        q[k + 1],
    ) by {
        assert(q[k] == p[k]);
        if k < p.len() - 1 {
            assert(q[k + 1] == p[k + 1]);
        }
    }
    assert(is_path(s, q));
}

/// When the opened set contains `start` and is closed under spreading, every
/// square of a path from `start` is open.
proof fn lemma_path_opened(s: Seq<Cell>, cur: Seq<Cell>, p: Seq<int>, k: int)
    requires
        is_path(s, p),
        0 <= k < p.len(),
        cur[p[0]].is_revealed,
        forall|v: int, n: int|
            #![trigger cur[v], adjacent(v, n)]
            0 <= v < 81 && cur[v].is_revealed && !s[v].is_revealed && s[v].adjacent_mines == 0 && adjacent(v, n)
                && closed(s, n) ==> cur[n].is_revealed,
    ensures
        cur[p[k]].is_revealed,
    decreases k,
{
    if k > 0 {
        lemma_path_opened(s, cur, p, k - 1);
        assert(closed(s, p[k - 1]));
        assert(closed(s, p[k]));
        assert(s[p[k - 1]].adjacent_mines == 0 && adjacent(p[k - 1], p[k]));
        assert(cur[p[k - 1]].is_revealed);
    }
}

// ---------------------------------------------------------------------------
// Operations
// ---------------------------------------------------------------------------

impl Board {
    /// A fresh field: nothing open, flagged or mined yet.
    pub fn new() -> (b: Board)
        ensures
            b.wf(),
            b.mine_count == MINE_COUNT,
            b.flags_placed == 0,
            b.revealed_count == 0,
            b.status == GameStatus::Playing,
            !b.initialized,
            forall|j: int| 0 <= j < 81 ==> #[trigger] b.cells@[j] == Cell::default_spec(),
    {
        let mut cells: Vec<Cell> = Vec::new();
        let mut i: usize = 0;
        while i < ROWS * COLS
            invariant
                i <= 81,
                cells@.len() == i,
                forall|j: int| 0 <= j < i ==> #[trigger] cells@[j] == Cell::default_spec(),
            decreases 81 - i,
        {
            cells.push(Cell::default());
            i += 1;
        }
        let b = Board {
            cells,
            mine_count: MINE_COUNT,
            flags_placed: 0,
            revealed_count: 0,
            status: GameStatus::Playing,
            initialized: false,
        };
        proof {
            lemma_revealed_bounds(b.cells@, 81);
            lemma_flagged_zero(b.cells@, 81);
        }
        b
    }

    /// Row-major indices of the squares touching `(row, col)`: the row above
    /// left to right, then the same row, then the row below.
    pub fn neighbors(&self, row: usize, col: usize) -> (result: Vec<usize>)
        requires
            row < 9,
            col < 9,
        ensures
            result@ == nbrs(row as int, col as int),
    {
        let mut result: Vec<usize> = Vec::with_capacity(8);
        let mut dr: i32 = -1;
        while dr <= 1
            invariant
                -1 <= dr <= 2,
                row < 9,
                col < 9,
                result@ == nbr_upto(row as int, col as int, (dr + 1) * 3),
            decreases 2 - dr,
        {
            let mut dc: i32 = -1;
            while dc <= 1
                invariant
                    -1 <= dr <= 1,
                    -1 <= dc <= 2,
                    row < 9,
                    col < 9,
                    result@ == nbr_upto(row as int, col as int, (dr + 1) * 3 + dc + 1),
                decreases 2 - dc,
            {
                let k = (dr + 1) * 3 + dc + 1;
                assert(offset(row as int, col as int, k as int) == (row + dr, col + dc));
                if !(dr == 0 && dc == 0) {
                    let nr = row as i32 + dr;
                    let nc = col as i32 + dc;
                    if nr >= 0 && nr < ROWS as i32 && nc >= 0 && nc < COLS as i32 {
                        result.push(nr as usize * COLS + nc as usize);
                    }
                }
                dc += 1;
            }
            dr += 1;
        }
        result
    }

    /// Writes, on every square without a mine, the number of mines around it.
    #[verifier::spinoff_prover]
    pub fn compute_adjacency(&mut self)
        requires
            old(self).cells@.len() == 81,
        ensures
            same_marks(old(self).cells@, final(self).cells@),
            counts_consistent(final(self).cells@),
            forall|j: int|
                0 <= j < 81 && old(self).cells@[j].is_mine ==> (#[trigger] final(self).cells@[j]).adjacent_mines
                    == old(self).cells@[j].adjacent_mines,
            final(self).mine_count == old(self).mine_count,
            final(self).flags_placed == old(self).flags_placed,
            final(self).revealed_count == old(self).revealed_count,
            final(self).status == old(self).status,
            final(self).initialized == old(self).initialized,
    {
        let ghost s = self.cells@;
        let mut row: usize = 0;
        while row < ROWS
            invariant
                row <= 9,
                s.len() == 81,
                same_marks(s, self.cells@),
                counts_upto(s, self.cells@, row * 9),
                self.mine_count == old(self).mine_count,
                self.flags_placed == old(self).flags_placed,
                self.revealed_count == old(self).revealed_count,
                self.status == old(self).status,
                self.initialized == old(self).initialized,
            decreases 9 - row,
        {
            let mut col: usize = 0;
            while col < COLS
                invariant
                    row < 9,
                    col <= 9,
                    s.len() == 81,
                    same_marks(s, self.cells@),
                    counts_upto(s, self.cells@, row * 9 + col),
                    self.mine_count == old(self).mine_count,
                    self.flags_placed == old(self).flags_placed,
                    self.revealed_count == old(self).revealed_count,
                    self.status == old(self).status,
                    self.initialized == old(self).initialized,
                decreases 9 - col,
            {
                let idx = row * COLS + col;
                assert(idx / 9 == row && idx % 9 == col);
                if !self.cells[idx].is_mine {
                    let list = self.neighbors(row, col);
                    proof {
                        lemma_nbrs(row as int, col as int);
                    }
                    let mut count: usize = 0;
                    let mut k: usize = 0;
                    while k < list.len()
                        invariant
                            k <= list@.len(),
                            list@ == nbrs(row as int, col as int),
                            list@.len() <= 8,
                            forall|m: int| 0 <= m < list@.len() ==> (#[trigger] list@[m] as int) < 81,
                            s.len() == 81,
                            same_marks(s, self.cells@),
                            count == mines_in(s, list@.take(k as int)),
                            count <= k,
                        decreases list.len() - k,
                    {
                        assert(list@.take(k + 1).drop_last() =~= list@.take(k as int));
                        assert(self.cells@[list@[k as int] as int].is_mine == s[list@[k as int] as int].is_mine);
                        if self.cells[list[k]].is_mine {
                            count += 1;
                        }
                        k += 1;
                    }
                    assert(list@.take(list@.len() as int) =~= list@);
                    let ghost before = self.cells@;
                    let mut cell = self.cells[idx];
                    cell.adjacent_mines = count as u8;
                    self.cells.set(idx, cell);
                    proof {
                        assert forall|j: int| 0 <= j < 81 implies (#[trigger] self.cells@[j]).is_mine == s[j].is_mine
                            && self.cells@[j].is_revealed == s[j].is_revealed && self.cells@[j].is_flagged
                            == s[j].is_flagged by {
                            assert(before[j].is_mine == s[j].is_mine);
                        }
                        assert forall|j: int| 0 <= j < 81 implies (#[trigger] self.cells@[j]).adjacent_mines == if !s[j].is_mine
                            && j < idx + 1 {
                            mines_in(s, nbrs(j / 9, j % 9))
                        } else {
                            s[j].adjacent_mines as int
                        } by {
                            assert(before[j].adjacent_mines == if !s[j].is_mine && j < idx {
                                mines_in(s, nbrs(j / 9, j % 9))
                            } else {
                                s[j].adjacent_mines as int
                            });
                        }
                    }
                } else {
                    proof {
                        let cur = self.cells@;
                        assert forall|j: int| 0 <= j < 81 implies (#[trigger] cur[j]).adjacent_mines == if !s[j].is_mine
                            && j < idx + 1 {
                            mines_in(s, nbrs(j / 9, j % 9))
                        } else {
                            s[j].adjacent_mines as int
                        } by {
                            assert(cur[j].is_mine == s[j].is_mine);
                        }
                    }
                }
                col += 1;
            }
            row += 1;
        }
        let ghost cur = self.cells@;
        assert forall|j: int| 0 <= j < 81 && !cur[j].is_mine implies (#[trigger] cur[j]).adjacent_mines == mines_in(
            cur,
            nbrs(j / 9, j % 9),
        ) by {
            assert(cur[j].is_mine == s[j].is_mine);
            lemma_nbrs(j / 9, j % 9);
            lemma_mines_in_same(s, cur, nbrs(j / 9, j % 9));
        }
        assert forall|j: int| 0 <= j < 81 && s[j].is_mine implies (#[trigger] cur[j]).adjacent_mines
            == s[j].adjacent_mines by {}
    }

    /// Lays mines on the candidates `chosen` picks: candidate `k` is square
    /// `k` below `safe_index` and square `k + 1` from it on, so `safe_index`
    /// never gets a mine. Then writes the counts.
    #[verifier::spinoff_prover]
    pub fn place_mines_from(&mut self, safe_index: usize, chosen: &Vec<usize>)
        requires
            old(self).cells@.len() == 81,
            safe_index < 81,
            forall|k: int| 0 <= k < chosen@.len() ==> #[trigger] chosen@[k] < 80,
        ensures
            final(self).cells@.len() == 81,
            counts_consistent(final(self).cells@),
            forall|j: int|
                0 <= j < 81 ==> {
                    &&& (#[trigger] final(self).cells@[j]).is_mine == (old(self).cells@[j].is_mine || (j
                        != safe_index && chosen@.contains(candidate_of(safe_index as int, j) as usize)))
                    &&& final(self).cells@[j].is_revealed == old(self).cells@[j].is_revealed
                    &&& final(self).cells@[j].is_flagged == old(self).cells@[j].is_flagged
                },
            final(self).mine_count == old(self).mine_count,
            final(self).flags_placed == old(self).flags_placed,
            final(self).revealed_count == old(self).revealed_count,
            final(self).status == old(self).status,
            final(self).initialized == old(self).initialized,
    {
        let ghost s = self.cells@;
        let mut candidates: Vec<usize> = Vec::new();
        let mut i: usize = 0;
        while i < ROWS * COLS
            invariant
                i <= 81,
                safe_index < 81,
                candidates@.len() == if i <= safe_index {
                    i as int
                } else {
                    i - 1
                },
                forall|k: int|
                    0 <= k < candidates@.len() ==> #[trigger] candidates@[k] == if k < safe_index {
                        k
                    } else {
                        k + 1
                    },
            decreases 81 - i,
        {
            if i != safe_index {
                candidates.push(i);
            }
            i += 1;
        }
        let mut k: usize = 0;
        while k < chosen.len()
            invariant
                k <= chosen@.len(),
                safe_index < 81,
                s.len() == 81,
                candidates@.len() == 80,
                forall|c: int| 0 <= c < 80 ==> #[trigger] candidates@[c] == if c < safe_index {
                    c
                } else {
                    c + 1
                },
                forall|c: int| 0 <= c < chosen@.len() ==> #[trigger] chosen@[c] < 80,
                self.cells@.len() == 81,
                forall|j: int|
                    0 <= j < 81 ==> {
                        &&& (#[trigger] self.cells@[j]).is_mine == (s[j].is_mine || (j != safe_index
                            && chosen@.take(k as int).contains(candidate_of(safe_index as int, j) as usize)))
                        &&& self.cells@[j].is_revealed == s[j].is_revealed
                        &&& self.cells@[j].is_flagged == s[j].is_flagged
                    },
                self.mine_count == old(self).mine_count,
                self.flags_placed == old(self).flags_placed,
                self.revealed_count == old(self).revealed_count,
                self.status == old(self).status,
                self.initialized == old(self).initialized,
            decreases chosen.len() - k,
        {
            let target = candidates[chosen[k]];
            let ghost before = self.cells@;
            let mut cell = self.cells[target];
            cell.is_mine = true;
            self.cells.set(target, cell);
            proof {
                assert forall|j: int| 0 <= j < 81 && j != target implies #[trigger] self.cells@[j] == before[j] by {}
                let x = chosen@[k as int];
                let t0 = chosen@.take(k as int);
                let t1 = chosen@.take(k + 1);
                assert(t1 =~= t0.push(x));
                crate::seq_facts::lemma_push_contains(t0, x);
                assert(target as int == if x < safe_index {
                    x as int
                } else {
                    x + 1
                });
                assert forall|j: int| 0 <= j < 81 implies {
                    &&& (#[trigger] self.cells@[j]).is_mine == (s[j].is_mine || (j != safe_index && t1.contains(
                        candidate_of(safe_index as int, j) as usize,
                    )))
                    &&& self.cells@[j].is_revealed == s[j].is_revealed
                    &&& self.cells@[j].is_flagged == s[j].is_flagged
                } by {
                    let c = candidate_of(safe_index as int, j) as usize;
                    if j != target {
                        assert(self.cells@[j] == before[j]);
                        assert(before[j].is_mine == (s[j].is_mine || (j != safe_index && t0.contains(c))));
                        if j != safe_index && c == x {
                            assert(false);
                        }
                    } else {
                        assert(c == x);
                    }
                }
            }
            k += 1;
        }
        assert(chosen@.take(chosen@.len() as int) =~= chosen@);
        self.compute_adjacency();
    }

    /// Lays `mine_count` mines at random, none on `safe_index`.
    #[verifier::spinoff_prover]
    pub fn place_mines(&mut self, safe_index: usize)
        requires
            old(self).cells@.len() == 81,
            old(self).mine_count <= 80,
            safe_index < 81,
        ensures
            final(self).cells@.len() == 81,
            counts_consistent(final(self).cells@),
            !old(self).cells@[safe_index as int].is_mine ==> !final(self).cells@[safe_index as int].is_mine,
            (forall|j: int| 0 <= j < 81 ==> !(#[trigger] old(self).cells@[j]).is_mine) ==> mines_upto(
                final(self).cells@,
                81,
            ) == old(self).mine_count,
            forall|j: int|
                0 <= j < 81 ==> {
                    &&& (#[trigger] final(self).cells@[j]).is_revealed == old(self).cells@[j].is_revealed
                    &&& final(self).cells@[j].is_flagged == old(self).cells@[j].is_flagged
                    &&& old(self).cells@[j].is_mine ==> final(self).cells@[j].is_mine
                },
            final(self).mine_count == old(self).mine_count,
            final(self).flags_placed == old(self).flags_placed,
            final(self).revealed_count == old(self).revealed_count,
            final(self).status == old(self).status,
            final(self).initialized == old(self).initialized,
    {
        let ghost s = self.cells@;
        let chosen = sample_indices(ROWS * COLS - 1, self.mine_count);
        self.place_mines_from(safe_index, &chosen);
        proof {
            if forall|j: int| 0 <= j < 81 ==> !(#[trigger] s[j]).is_mine {
                let t = self.cells@;
                assert forall|j: int| 0 <= j < 81 implies (#[trigger] t[j]).is_mine == (j != safe_index && chosen@.contains(
                    candidate_of(safe_index as int, j) as usize,
                )) by {}
                lemma_mines_vs_listed(t, chosen@, safe_index as int, 81);
                lemma_listed_len(chosen@, 80);
            }
        }
        assert(self.cells@[safe_index as int].is_mine == (s[safe_index as int].is_mine || false));
        assert forall|j: int| 0 <= j < 81 implies {
            &&& (#[trigger] self.cells@[j]).is_revealed == s[j].is_revealed
            &&& self.cells@[j].is_flagged == s[j].is_flagged
            &&& s[j].is_mine ==> self.cells@[j].is_mine
        } by {
            assert(self.cells@[j].is_mine == (s[j].is_mine || (j != safe_index && chosen@.contains(
                candidate_of(safe_index as int, j) as usize,
            ))));
        }
    }

    /// Opens `index` on a board whose mines are laid: a mine loses the game
    /// and shows every mine; otherwise the region reached from `index` opens
    /// and the game is won once every square without a mine is open.
    #[verifier::rlimit(80)]
    #[verifier::spinoff_prover]
    pub fn open_cell(&mut self, index: usize)
        requires
            old(self).wf(),
            index < 81,
            closed(old(self).cells@, index as int),
        ensures
            final(self).wf(),
            reveal_step(*old(self), index as int, *final(self)),
    {
        let ghost s = self.cells@;
        let ghost b = *self;
        if self.cells[index].is_mine {
            self.show_mines_after_hit(index);
            return;
        }
        let mut stack: Vec<usize> = Vec::new();
        stack.push(index);
        proof {
            lemma_revealed_bounds(s, 81);
            let p = seq![index as int];
            assert(is_path(s, p));
            assert(stack@[0] == index);
        }
        while stack.len() > 0
            invariant
                self.cells@.len() == 81,
                s.len() == 81,
                index < 81,
                !s[index as int].is_mine,
                closed(s, index as int),
                b.revealed_count <= revealed_upto(s, 81),
                revealed_upto(s, 81) <= 81,
                self.revealed_count + revealed_upto(s, 81) == b.revealed_count + revealed_upto(self.cells@, 81),
                self.mine_count == b.mine_count,
                self.flags_placed == b.flags_placed,
                self.status == b.status,
                self.initialized == b.initialized,
                forall|j: int|
                    0 <= j < 81 ==> {
                        &&& (#[trigger] self.cells@[j]).is_mine == s[j].is_mine
                        &&& self.cells@[j].is_flagged == s[j].is_flagged
                        &&& self.cells@[j].adjacent_mines == s[j].adjacent_mines
                        &&& s[j].is_revealed ==> self.cells@[j].is_revealed
                        &&& (self.cells@[j].is_revealed && !s[j].is_revealed) ==> reached(s, index as int, j)
                    },
                forall|k: int|
                    0 <= k < stack@.len() ==> (#[trigger] stack@[k] as int) < 81 && reached(
                        s,
                        index as int,
                        stack@[k] as int,
                    ),
                self.cells@[index as int].is_revealed || stack@.contains(index),
                forall|v: int, n: int|
                    #![trigger self.cells@[v], adjacent(v, n)]
                    0 <= v < 81 && self.cells@[v].is_revealed && !s[v].is_revealed && s[v].adjacent_mines == 0
                        && adjacent(v, n) && closed(s, n) ==> self.cells@[n].is_revealed || stack@.contains(
                        n as usize,
                    ),
            decreases 81 - revealed_upto(self.cells@, 81), stack.len(),
        {
            let ghost before = self.cells@;
            let ghost old_stack = stack@;
            let idx = stack.pop().unwrap();
            proof {
                assert(old_stack == stack@.push(idx));
                assert(old_stack[old_stack.len() - 1] == idx);
                assert forall|n: usize| #[trigger] old_stack.contains(n) && n != idx implies stack@.contains(n) by {
                    let k = choose|k: int| 0 <= k < old_stack.len() && old_stack[k] == n;
                    assert(stack@[k] == n);
                }
                assert forall|k: int| 0 <= k < stack@.len() implies (#[trigger] stack@[k] as int) < 81 && reached(
                    s,
                    index as int,
                    stack@[k] as int,
                ) by {
                    assert(stack@[k] == old_stack[k]);
                }
                assert((idx as int) < 81 && reached(s, index as int, idx as int));
                lemma_revealed_bounds(before, 81);
            }
            if !self.cells[idx].is_revealed && !self.cells[idx].is_flagged {
                let mut cell = self.cells[idx];
                cell.is_revealed = true;
                self.cells.set(idx, cell);
                proof {
                    assert forall|j: int| 0 <= j < 81 && j != idx implies #[trigger] self.cells@[j] == before[j] by {}
                    assert(self.cells@[idx as int].is_revealed);
                    lemma_revealed_one(before, self.cells@, idx as int, 81);
                    lemma_revealed_bounds(self.cells@, 81);
                }
                self.revealed_count += 1;
                if self.cells[idx].adjacent_mines == 0 {
                    self.push_open_neighbors(idx, &mut stack, Ghost(s), Ghost(index as int));
                }
                proof {
                    assert forall|j: int| 0 <= j < 81 implies {
                        &&& (#[trigger] self.cells@[j]).is_mine == s[j].is_mine
                        &&& self.cells@[j].is_flagged == s[j].is_flagged
                        &&& self.cells@[j].adjacent_mines == s[j].adjacent_mines
                        &&& s[j].is_revealed ==> self.cells@[j].is_revealed
                        &&& (self.cells@[j].is_revealed && !s[j].is_revealed) ==> reached(s, index as int, j)
                    } by {
                        if j != idx {
                            assert(self.cells@[j] == before[j]);
                        }
                    }
                }
            }
            proof {
                let cur = self.cells@;
                assert forall|v: int, n: int|
                    #![trigger cur[v], adjacent(v, n)]
                    0 <= v < 81 && cur[v].is_revealed && !s[v].is_revealed && s[v].adjacent_mines == 0 && adjacent(
                        v,
                        n,
                    ) && closed(s, n) implies cur[n].is_revealed || stack@.contains(n as usize) by {
                    if v == idx {
                    } else {
                        assert(before[v] == cur[v] || v == idx);
                        assert(before[v].is_revealed);
                        assert(before[n].is_revealed || old_stack.contains(n as usize));
                        if before[n].is_revealed {
                            assert(cur[n].is_revealed || n == idx);
                        }
                    }
                }
                if !cur[index as int].is_revealed {
                    assert(old_stack.contains(index));
                    assert(index != idx || cur[idx as int].is_revealed || before[idx as int].is_revealed
                        || before[idx as int].is_flagged);
                }
            }
        }
        proof {
            let cur = self.cells@;
            assert forall|v: int, n: int|
                #![trigger cur[v], adjacent(v, n)]
                0 <= v < 81 && cur[v].is_revealed && !s[v].is_revealed && s[v].adjacent_mines == 0 && adjacent(v, n)
                    && closed(s, n) implies cur[n].is_revealed by {
                assert(!stack@.contains(n as usize));
            }
            assert(!stack@.contains(index));
            assert forall|j: int| 0 <= j < 81 implies #[trigger] cur[j] == flood(s, index as int)[j] by {
                if reached(s, index as int, j) {
                    let p = choose|p: Seq<int>| #[trigger] is_path(s, p) && p[0] == index && p.last() == j;
                    lemma_path_opened(s, cur, p, p.len() - 1);
                }
            }
            assert(cur =~= flood(s, index as int));
            lemma_flood_count(s, index as int, 81);
            lemma_flagged_same(s, cur, 81);
            lemma_revealed_bounds(cur, 81);
        }
        self.check_win();
    }

    /// Pushes every neighbour of `idx` that is neither open nor flagged.
    #[verifier::spinoff_prover]
    fn push_open_neighbors(&self, idx: usize, stack: &mut Vec<usize>, Ghost(s): Ghost<Seq<Cell>>, Ghost(start): Ghost<int>)
        requires
            idx < 81,
            self.cells@.len() == 81,
            s.len() == 81,
            s[idx as int].adjacent_mines == 0,
            reached(s, start, idx as int),
            forall|j: int|
                0 <= j < 81 ==> {
                    &&& (#[trigger] self.cells@[j]).is_flagged == s[j].is_flagged
                    &&& s[j].is_revealed ==> self.cells@[j].is_revealed
                },
            forall|k: int|
                0 <= k < old(stack)@.len() ==> (#[trigger] old(stack)@[k] as int) < 81 && reached(
                    s,
                    start,
                    old(stack)@[k] as int,
                ),
        ensures
            forall|k: int|
                0 <= k < final(stack)@.len() ==> (#[trigger] final(stack)@[k] as int) < 81 && reached(
                    s,
                    start,
                    final(stack)@[k] as int,
                ),
            forall|n: usize| #[trigger] old(stack)@.contains(n) ==> final(stack)@.contains(n),
            forall|n: int|
                0 <= n < 81 && adjacent(idx as int, n) && closed(s, n) ==> self.cells@[n].is_revealed
                    || #[trigger] final(stack)@.contains(n as usize),
            final(stack)@.len() <= old(stack)@.len() + 8,
    {
        let row = idx / COLS;
        let col = idx % COLS;
        assert(row * 9 + col == idx);
        let list = self.neighbors(row, col);
        proof {
            lemma_nbrs(row as int, col as int);
        }
        let ghost base = stack@;
        let mut t: usize = 0;
        while t < list.len()
            invariant
                t <= list@.len(),
                list@ == nbrs(row as int, col as int),
                list@.len() <= 8,
                row * 9 + col == idx,
                idx < 81,
                self.cells@.len() == 81,
                s.len() == 81,
                s[idx as int].adjacent_mines == 0,
                reached(s, start, idx as int),
                forall|j: int|
                    0 <= j < 81 ==> {
                        &&& (#[trigger] self.cells@[j]).is_flagged == s[j].is_flagged
                        &&& s[j].is_revealed ==> self.cells@[j].is_revealed
                    },
                forall|m: int|
                    0 <= m < list@.len() ==> (#[trigger] list@[m] as int) < 81 && adjacent(
                        idx as int,
                        list@[m] as int,
                    ),
                base == old(stack)@,
                forall|k: int| 0 <= k < base.len() ==> #[trigger] stack@[k] == base[k],
                base.len() <= stack@.len() <= base.len() + t,
                forall|k: int|
                    0 <= k < stack@.len() ==> (#[trigger] stack@[k] as int) < 81 && reached(
                        s,
                        start,
                        stack@[k] as int,
                    ),
                forall|m: int|
                    0 <= m < t ==> self.cells@[#[trigger] list@[m] as int].is_revealed
                        || self.cells@[list@[m] as int].is_flagged || stack@.contains(list@[m]),
            decreases list.len() - t,
        {
            let ni = list[t];
            if !self.cells[ni].is_revealed && !self.cells[ni].is_flagged {
                let ghost st = stack@;
                stack.push(ni);
                proof {
                    lemma_reach_step(s, start, idx as int, ni as int);
                    assert(stack@[stack@.len() - 1] == ni);
                    assert forall|k: int| 0 <= k < stack@.len() implies (#[trigger] stack@[k] as int) < 81 && reached(
                        s,
                        start,
                        stack@[k] as int,
                    ) by {
                        if k < st.len() {
                            assert(stack@[k] == st[k]);
                        }
                    }
                    assert forall|m: int| 0 <= m < t + 1 implies self.cells@[#[trigger] list@[m] as int].is_revealed
                        || self.cells@[list@[m] as int].is_flagged || stack@.contains(list@[m]) by {
                        if m < t && st.contains(list@[m]) {
                            let k = choose|k: int| 0 <= k < st.len() && st[k] == list@[m];
                            assert(stack@[k] == list@[m]);
                        }
                    }
                }
            }
            t += 1;
        }
        proof {
            assert forall|n: usize| #[trigger] base.contains(n) implies stack@.contains(n) by {
                let k = choose|k: int| 0 <= k < base.len() && base[k] == n;
                assert(stack@[k] == n);
            }
            assert forall|n: int| 0 <= n < 81 && adjacent(idx as int, n) && closed(s, n) implies self.cells@[n].is_revealed
                || #[trigger] stack@.contains(n as usize) by {
                assert(nbrs(row as int, col as int).contains(n as usize));
                let m = choose|m: int| 0 <= m < list@.len() && list@[m] == n as usize;
                assert(self.cells@[list@[m] as int].is_flagged == s[n].is_flagged);
            }
        }
    }

    /// After a mine on `index` was hit: the square opens, the game is lost
    /// and every mine is shown.
    #[verifier::spinoff_prover]
    fn show_mines_after_hit(&mut self, index: usize)
        requires
            old(self).wf(),
            index < 81,
            old(self).cells@[index as int].is_mine,
        ensures
            final(self).wf(),
            final(self).cells@ == all_mines_shown(old(self).cells@),
            final(self).status == GameStatus::Lost,
            final(self).mine_count == old(self).mine_count,
            final(self).flags_placed == old(self).flags_placed,
            final(self).revealed_count == old(self).revealed_count,
            final(self).initialized == old(self).initialized,
    {
        let ghost s = self.cells@;
        let mut cell = self.cells[index];
        cell.is_revealed = true;
        self.cells.set(index, cell);
        self.status = GameStatus::Lost;
        let mut j: usize = 0;
        while j < self.cells.len()
            invariant
                j <= 81,
                s.len() == 81,
                index < 81,
                self.cells@.len() == 81,
                s[index as int].is_mine,
                self.status == GameStatus::Lost,
                self.mine_count == old(self).mine_count,
                self.flags_placed == old(self).flags_placed,
                self.revealed_count == old(self).revealed_count,
                self.initialized == old(self).initialized,
                forall|t: int|
                    0 <= t < 81 ==> {
                        &&& (#[trigger] self.cells@[t]).is_mine == s[t].is_mine
                        &&& self.cells@[t].is_flagged == s[t].is_flagged
                        &&& self.cells@[t].adjacent_mines == s[t].adjacent_mines
                        &&& self.cells@[t].is_revealed == if t < j || t == index {
                            s[t].is_revealed || s[t].is_mine
                        } else {
                            s[t].is_revealed
                        }
                    },
            decreases 81 - j,
        {
            let ghost before = self.cells@;
            let mut c = self.cells[j];
            if c.is_mine {
                c.is_revealed = true;
                self.cells.set(j, c);
            }
            proof {
                assert forall|t: int| 0 <= t < 81 implies {
                    &&& (#[trigger] self.cells@[t]).is_mine == s[t].is_mine
                    &&& self.cells@[t].is_flagged == s[t].is_flagged
                    &&& self.cells@[t].adjacent_mines == s[t].adjacent_mines
                    &&& self.cells@[t].is_revealed == if t < j + 1 || t == index {
                        s[t].is_revealed || s[t].is_mine
                    } else {
                        s[t].is_revealed
                    }
                } by {
                    assert(before[t].is_mine == s[t].is_mine);
                    if t != j {
                        assert(self.cells@[t] == before[t]);
                    }
                }
            }
            j += 1;
        }
        assert(self.cells@ =~= all_mines_shown(s));
        proof {
            lemma_revealed_mono(s, self.cells@, 81);
            lemma_flagged_same(s, self.cells@, 81);
        }
    }

    /// Reveals `index`: ignored when the game is over or the square is open
    /// or flagged; the first reveal lays the mines around it.
    #[verifier::spinoff_prover]
    pub fn reveal_cell(&mut self, index: usize)
        requires
            old(self).wf(),
            index < 81,
        ensures
            final(self).wf(),
            old(self).status != GameStatus::Playing || !closed(old(self).cells@, index as int) ==> *final(self)
                == *old(self),
            old(self).status == GameStatus::Playing && closed(old(self).cells@, index as int)
                && old(self).initialized ==> reveal_step(*old(self), index as int, *final(self)),
            old(self).status == GameStatus::Playing && !old(self).initialized ==> final(self).status
                != GameStatus::Lost,
            old(self).status == GameStatus::Playing && closed(old(self).cells@, index as int)
                && !old(self).initialized ==> exists|m: Board|
                laid_out(*old(self), m, index as int) && #[trigger] reveal_step(m, index as int, *final(self)),
    {
        if self.status != GameStatus::Playing {
            return;
        }
        if self.cells[index].is_revealed || self.cells[index].is_flagged {
            return;
        }
        let ghost b = *self;
        if !self.initialized {
            self.place_mines(index);
            self.initialized = true;
            proof {
                assert forall|j: int| 0 <= j < 81 implies (#[trigger] b.cells@[j]).is_flagged == self.cells@[j].is_flagged
                    && b.cells@[j].is_revealed == self.cells@[j].is_revealed by {
                    assert(self.cells@[j].is_revealed == b.cells@[j].is_revealed);
                }
                lemma_revealed_same(b.cells@, self.cells@, 81);
                lemma_flagged_same(b.cells@, self.cells@, 81);
                assert(!b.cells@[index as int].is_mine);
            }
        }
        let ghost m = *self;
        assert(closed(m.cells@, index as int));
        self.open_cell(index);
        assert(!b.initialized ==> laid_out(b, m, index as int));
        assert(reveal_step(m, index as int, *self));
    }

    /// Flags or unflags a closed square while the game is on.
    pub fn toggle_flag(&mut self, index: usize)
        requires
            old(self).wf(),
            index < 81,
        ensures
            final(self).wf(),
            flag_toggled(*old(self), index as int, *final(self)),
    {
        if self.status != GameStatus::Playing {
            return;
        }
        let mut cell = self.cells[index];
        if cell.is_revealed {
            return;
        }
        let ghost s = self.cells@;
        proof {
            lemma_flagged_bounds(s, 81);
        }
        if cell.is_flagged {
            cell.is_flagged = false;
            self.cells.set(index, cell);
            proof {
                lemma_flagged_one(s, self.cells@, index as int, 81);
                lemma_flagged_bounds(self.cells@, 81);
            }
            self.flags_placed -= 1;
        } else {
            cell.is_flagged = true;
            self.cells.set(index, cell);
            proof {
                lemma_flagged_one(s, self.cells@, index as int, 81);
            }
            self.flags_placed += 1;
        }
        proof {
            lemma_revealed_same(s, self.cells@, 81);
        }
    }

    /// The game is won once every square without a mine is open.
    /// The mine counter: mines laid less flags placed (negative when there
    /// are more flags than mines).
    pub fn mines_remaining(&self) -> (r: i64)
        requires
            self.wf(),
        ensures
            r == self.mine_count - self.flags_placed,
    {
        proof {
            lemma_flagged_bounds(self.cells@, 81);
        }
        self.mine_count as i64 - self.flags_placed as i64
    }

    /// The status word shown under the board.
    pub fn status_text(&self) -> (s: &'static str)
        ensures
            self.status == GameStatus::Playing ==> s@ == "playing"@,
            self.status == GameStatus::Won ==> s@ == "won"@,
            self.status == GameStatus::Lost ==> s@ == "lost"@,
    {
        match self.status {
            GameStatus::Won => "won",
            GameStatus::Lost => "lost",
            GameStatus::Playing => "playing",
        }
    }

    pub fn check_win(&mut self)
        requires
            old(self).mine_count <= 81,
        ensures
            final(self).status == if old(self).revealed_count == 81 - old(self).mine_count {
                GameStatus::Won
            } else {
                old(self).status
            },
            final(self).cells == old(self).cells,
            final(self).mine_count == old(self).mine_count,
            final(self).flags_placed == old(self).flags_placed,
            final(self).revealed_count == old(self).revealed_count,
            final(self).initialized == old(self).initialized,
    {
        let non_mine_count = ROWS * COLS - self.mine_count;
        if self.revealed_count == non_mine_count {
            self.status = GameStatus::Won;
        }
    }
}

impl Cell {
    pub open spec fn default_spec() -> Cell {
        Cell { is_mine: false, is_revealed: false, is_flagged: false, adjacent_mines: 0 }
    }
}

proof fn lemma_flagged_zero(s: Seq<Cell>, n: int)
    requires
        0 <= n <= s.len(),
        forall|j: int| 0 <= j < n ==> !(#[trigger] s[j]).is_flagged,
    ensures
        flagged_upto(s, n) == 0,
    decreases n,
{
    if n > 0 {
        lemma_flagged_zero(s, n - 1);
    }
}

proof fn lemma_mines_in_same(s: Seq<Cell>, t: Seq<Cell>, list: Seq<usize>)
    requires
        forall|m: int| 0 <= m < list.len() ==> (#[trigger] list[m] as int) < 81,
        forall|j: int| 0 <= j < 81 ==> (#[trigger] s[j]).is_mine == t[j].is_mine,
    ensures
        mines_in(s, list) == mines_in(t, list),
    decreases list.len(),
{
    if list.len() > 0 {
        let l = list.drop_last();
        assert forall|m: int| 0 <= m < l.len() implies (#[trigger] l[m] as int) < 81 by {
            assert(l[m] == list[m]);
        }
        lemma_mines_in_same(s, t, l);
        assert(list.last() == list[list.len() - 1]);
    }
}


/// A second right click on the same square undoes the first: the squares,
/// the flag counter and everything else are as before.
pub proof fn flagging_twice_restores(b: Board, m: Board, a: Board, i: int)
    requires
        b.wf(),
        0 <= i < 81,
        flag_toggled(b, i, m),
        flag_toggled(m, i, a),
    ensures
        a.cells@ == b.cells@,
        a.flags_placed == b.flags_placed,
        a.mine_count == b.mine_count,
        a.revealed_count == b.revealed_count,
        a.status == b.status,
        a.initialized == b.initialized,
{
    if !(b.status != GameStatus::Playing || b.cells@[i].is_revealed) {
        assert(m.cells@[i].is_revealed == b.cells@[i].is_revealed);
        assert(a.cells@ =~= b.cells@);
    }
}


proof fn lemma_listed_add(c: Seq<usize>, d: Seq<usize>, x: usize, n: int)
    requires
        forall|k: usize| #[trigger] d.contains(k) == (c.contains(k) || k == x),
        !c.contains(x),
        n <= usize::MAX,
    ensures
        listed_upto(d, n) == listed_upto(c, n) + if 0 <= x < n {
            1int
        } else {
            0
        },
    decreases n,
{
    if n > 0 {
        lemma_listed_add(c, d, x, n - 1);
        assert(d.contains((n - 1) as usize) == (c.contains((n - 1) as usize) || (n - 1) as usize == x));
    }
}

/// `chosen` without repeats and below `n` lists exactly its length of
/// numbers below `n`.
proof fn lemma_listed_len(chosen: Seq<usize>, n: int)
    requires
        0 <= n <= usize::MAX,
        forall|i: int, j: int| 0 <= i < j < chosen.len() ==> chosen[i] != chosen[j],
        forall|k: int| 0 <= k < chosen.len() ==> #[trigger] chosen[k] < n,
    ensures
        listed_upto(chosen, n) == chosen.len(),
    decreases chosen.len(),
{
    if chosen.len() == 0 {
        lemma_listed_none(chosen, n);
    } else {
        let c = chosen.drop_last();
        let x = chosen.last();
        assert forall|k: usize| #[trigger] chosen.contains(k) == (c.contains(k) || k == x) by {
            if chosen.contains(k) {
                let i = choose|i: int| 0 <= i < chosen.len() && chosen[i] == k;
                if i < c.len() {
                    assert(c[i] == k);
                }
            }
            if c.contains(k) {
                let i = choose|i: int| 0 <= i < c.len() && c[i] == k;
                assert(chosen[i] == k);
            }
            if k == x {
                assert(chosen[chosen.len() - 1] == k);
            }
        }
        if c.contains(x) {
            let i = choose|i: int| 0 <= i < c.len() && c[i] == x;
            assert(chosen[i] == chosen[chosen.len() - 1]);
        }
        lemma_listed_len(c, n);
        lemma_listed_add(c, chosen, x, n);
        assert(chosen[chosen.len() - 1] < n);
    }
}

proof fn lemma_listed_none(chosen: Seq<usize>, n: int)
    requires
        chosen.len() == 0,
    ensures
        listed_upto(chosen, n) == 0,
    decreases n,
{
    if n > 0 {
        lemma_listed_none(chosen, n - 1);
    }
}

/// Counting the mines laid from `chosen` around `safe` counts the numbers
/// listed in `chosen`, one fewer past `safe`.
proof fn lemma_mines_vs_listed(t: Seq<Cell>, chosen: Seq<usize>, safe: int, n: int)
    requires
        0 <= safe < 81,
        0 <= n <= 81,
        t.len() == 81,
        forall|j: int|
            0 <= j < 81 ==> (#[trigger] t[j]).is_mine == (j != safe && chosen.contains(candidate_of(safe, j) as usize)),
    ensures
        mines_upto(t, n) == if n <= safe {
            listed_upto(chosen, n)
        } else {
            listed_upto(chosen, n - 1)
        },
    decreases n,
{
    if n > 0 {
        lemma_mines_vs_listed(t, chosen, safe, n - 1);
        assert(t[n - 1].is_mine == (n - 1 != safe && chosen.contains(candidate_of(safe, n - 1) as usize)));
    }
}

} // verus!
