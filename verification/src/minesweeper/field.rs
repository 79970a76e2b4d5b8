//! Minesweeper on a field of any size whose squares carry markers: covered,
//! revealed, flagged, questioned. A right click cycles a covered square
//! through flag, question mark and back; a left click on a covered square
//! that is not flagged reveals it, and a square with no mine around opens
//! its neighbours breadth first.

use std::collections::VecDeque;
use vstd::prelude::*;

use crate::random::shuffle;

verus! {

broadcast use vstd::std_specs::vecdeque::group_vec_dequeue_axioms;

/// Size of the field and number of mines.
pub struct GameConfig {
    pub cols: u32,
    pub rows: u32,
    pub mine_count: u32,
}

impl Default for GameConfig {
    fn default() -> (c: GameConfig)
        ensures
            c.cols == 9 && c.rows == 9 && c.mine_count == 10,
    {
        GameConfig { cols: 9, rows: 9, mine_count: 10 }
    }
}

#[derive(Clone, Copy, PartialEq, Eq, Structural, Debug)]
pub enum GameState {
    Setup,
    Playing,
    Won,
    Lost,
}

/// Flags placed, as shown by the mine counter.
pub struct FlagCount(pub u32);

/// A left click on `(col, row)`.
pub struct RevealCell {
    pub col: u32,
    pub row: u32,
}

/// A right click on `(col, row)`.
pub struct FlagCell {
    pub col: u32,
    pub row: u32,
}

/// The game ended, won or lost.
#[derive(Clone, Copy, PartialEq, Eq, Structural, Debug)]
pub struct GameOver {
    pub won: bool,
}

/// The markers of one square.
#[derive(Clone, Copy, PartialEq, Eq, Structural, Debug)]
pub struct Square {
    pub mine: bool,
    pub covered: bool,
    pub revealed: bool,
    pub flagged: bool,
    pub questioned: bool,
    pub adjacent: u8,
}

/// The field, indexed `squares[col][row]`.
pub struct Field {
    pub cols: u32,
    pub rows: u32,
    pub squares: Vec<Vec<Square>>,
    pub mines_initialized: bool,
}

// ---------------------------------------------------------------------------
// Model
// ---------------------------------------------------------------------------

pub open spec fn near(a: (int, int), b: (int, int)) -> bool {
    &&& a != b
    &&& -1 <= a.0 - b.0 <= 1
    &&& -1 <= a.1 - b.1 <= 1
}

/// Covered and not flagged: what a left click or the spreading opens.
pub open spec fn openable(s: Square) -> bool {
    s.covered && !s.flagged
}

/// The square once opened.
pub open spec fn opened(s: Square) -> Square {
    Square { covered: false, revealed: true, ..s }
}

pub open spec fn at(g: Seq<Vec<Square>>, p: (int, int)) -> Square {
    g[p.0]@[p.1]
}

pub open spec fn inside(cols: int, rows: int, p: (int, int)) -> bool {
    0 <= p.0 < cols && 0 <= p.1 < rows
}

/// The `k`-th square of the 3x3 block around `p`, column offset first.
pub open spec fn block(p: (int, int), k: int) -> (int, int) {
    (p.0 + k / 3 - 1, p.1 + k % 3 - 1)
}

/// Mines among the first `k` squares of the block around `p`, `p` itself
/// left out.
pub open spec fn mines_around(g: Seq<Vec<Square>>, cols: int, rows: int, p: (int, int), k: int) -> int
    decreases k,
{
    if k <= 0 {
        0
    } else {
        let q = block(p, k - 1);
        mines_around(g, cols, rows, p, k - 1) + if k - 1 != 4 && inside(cols, rows, q) && at(g, q).mine {
            1int
        } else {
            0
        }
    }
}

/// A chain from `start` along which the spreading goes: every square
/// openable, each but the last without a mine around, each after the first
/// without a mine, each touching the next.
pub open spec fn spread_path(g: Seq<Vec<Square>>, cols: int, rows: int, p: Seq<(int, int)>) -> bool {
    &&& p.len() >= 1
    &&& forall|k: int| 0 <= k < p.len() ==> inside(cols, rows, #[trigger] p[k]) && openable(at(g, p[k]))
    &&& forall|k: int| 0 < k < p.len() ==> !at(g, #[trigger] p[k]).mine
    &&& forall|k: int| 0 <= k < p.len() - 1 ==> at(g, #[trigger] p[k]).adjacent == 0 && near(p[k], p[k + 1])
}

/// Revealing `start` opens `q`.
pub open spec fn spreads_to(g: Seq<Vec<Square>>, cols: int, rows: int, start: (int, int), q: (int, int)) -> bool {
    exists|p: Seq<(int, int)>| #[trigger] spread_path(g, cols, rows, p) && p[0] == start && p.last() == q
}

impl Field {
    pub open spec fn wf(&self) -> bool {
        &&& self.squares@.len() == self.cols
        &&& forall|c: int| 0 <= c < self.cols ==> (#[trigger] self.squares@[c])@.len() == self.rows
        &&& self.cols <= i32::MAX
        &&& self.rows <= i32::MAX
        &&& !self.mines_initialized ==> forall|c: int, r: int|
            inside(self.cols as int, self.rows as int, (c, r)) ==> !(#[trigger] self.squares@[c]@[r]).mine
    }

    pub open spec fn sq(&self, c: int, r: int) -> Square {
        self.squares@[c]@[r]
    }

    /// Every square shows the number of mines around it.
    pub open spec fn counts_ok(&self) -> bool {
        forall|c: int, r: int|
            inside(self.cols as int, self.rows as int, (c, r)) ==> (#[trigger] self.squares@[c]@[r]).adjacent
                == mines_around(self.squares@, self.cols as int, self.rows as int, (c, r), 9)
    }
}

// ---------------------------------------------------------------------------
// Lemmas
// ---------------------------------------------------------------------------

proof fn lemma_mines_around_bound(g: Seq<Vec<Square>>, cols: int, rows: int, p: (int, int), k: int)
    requires
        0 <= k <= 9,
    ensures
        0 <= mines_around(g, cols, rows, p, k) <= k,
    decreases k,
{
    if k > 0 {
        lemma_mines_around_bound(g, cols, rows, p, k - 1);
    }
}

proof fn lemma_mines_around_same(a: Seq<Vec<Square>>, b: Seq<Vec<Square>>, cols: int, rows: int, p: (int, int), k: int)
    requires
        0 <= k <= 9,
        forall|q: (int, int)| inside(cols, rows, q) ==> (#[trigger] at(a, q)).mine == at(b, q).mine,
    ensures
        mines_around(a, cols, rows, p, k) == mines_around(b, cols, rows, p, k),
    decreases k,
{
    if k > 0 {
        lemma_mines_around_same(a, b, cols, rows, p, k - 1);
        let q = block(p, k - 1);
        if inside(cols, rows, q) {
            assert(at(a, q).mine == at(b, q).mine);
        }
    }
}

/// A spreading chain extended by a square that the spreading reaches next.
proof fn lemma_spread_step(g: Seq<Vec<Square>>, cols: int, rows: int, start: (int, int), v: (int, int), n: (int, int))
    requires
        spreads_to(g, cols, rows, start, v),
        at(g, v).adjacent == 0,
        near(v, n),
        inside(cols, rows, n),
        openable(at(g, n)),
        !at(g, n).mine,
    ensures
        spreads_to(g, cols, rows, start, n),
{
    let p = choose|p: Seq<(int, int)>| #[trigger] spread_path(g, cols, rows, p) && p[0] == start && p.last() == v;
    let q = p.push(n);
    assert forall|k: int| 0 <= k < q.len() implies inside(cols, rows, #[trigger] q[k]) && openable(at(g, q[k])) by {
        if k < p.len() {
            assert(q[k] == p[k]);
        }
    }
    assert forall|k: int| 0 < k < q.len() implies !at(g, #[trigger] q[k]).mine by {
        if k < p.len() {
            assert(q[k] == p[k]);
        }
    }
    assert forall|k: int| 0 <= k < q.len() - 1 implies at(g, #[trigger] q[k]).adjacent == 0 && near(q[k], q[k + 1]) by {
        assert(q[k] == p[k]);
        if k < p.len() - 1 {
            assert(q[k + 1] == p[k + 1]);
        }
    }
    assert(spread_path(g, cols, rows, q));
}

/// With `start` opened and the spreading closed, every square of a chain
/// from `start` is opened.
proof fn lemma_chain_opened(
    s: Seq<Vec<Square>>,
    cur: Seq<Vec<Square>>,
    cols: int,
    rows: int,
    p: Seq<(int, int)>,
    k: int,
)
    requires
        spread_path(s, cols, rows, p),
        0 <= k < p.len(),
        at(cur, p[0]) != at(s, p[0]),
        forall|v: (int, int), n: (int, int)|
            #![trigger at(cur, v), near(v, n)]
            inside(cols, rows, v) && at(cur, v) != at(s, v) && at(s, v).adjacent == 0 && near(v, n) && inside(
                cols,
                rows,
                n,
            ) && !at(s, n).mine && openable(at(s, n)) ==> at(cur, n) != at(s, n),
    ensures
        at(cur, p[k]) != at(s, p[k]),
    decreases k,
{
    if k > 0 {
        lemma_chain_opened(s, cur, cols, rows, p, k - 1);
        assert(inside(cols, rows, p[k - 1]) && openable(at(s, p[k - 1])));
        assert(inside(cols, rows, p[k]) && openable(at(s, p[k])));
        assert(!at(s, p[k]).mine);
        assert(at(s, p[k - 1]).adjacent == 0 && near(p[k - 1], p[k]));
        assert(at(cur, p[k - 1]) != at(s, p[k - 1]));
    }
}

/// Unvisited squares of a column among its first `n`.
pub open spec fn col_unvisited(col: Seq<bool>, n: int) -> int
    decreases n,
{
    if n <= 0 {
        0
    } else {
        col_unvisited(col, n - 1) + if col[n - 1] {
            0int
        } else {
            1
        }
    }
}

/// Unvisited squares of the first `m` columns.
pub open spec fn unvisited(vis: Seq<Vec<bool>>, rows: int, m: int) -> int
    decreases m,
{
    if m <= 0 {
        0
    } else {
        unvisited(vis, rows, m - 1) + col_unvisited(vis[m - 1]@, rows)
    }
}

proof fn lemma_col_unvisited(a: Seq<bool>, b: Seq<bool>, i: int, n: int)
    requires
        0 <= i,
        !a[i],
        b[i],
        forall|j: int| 0 <= j < n && j != i ==> #[trigger] a[j] == b[j],
    ensures
        col_unvisited(b, n) == col_unvisited(a, n) - if i < n {
            1int
        } else {
            0
        },
        col_unvisited(b, n) >= 0,
    decreases n,
{
    if n > 0 {
        lemma_col_unvisited(a, b, i, n - 1);
    }
}

proof fn lemma_col_unvisited_nonneg(a: Seq<bool>, n: int)
    ensures
        col_unvisited(a, n) >= 0,
    decreases n,
{
    if n > 0 {
        lemma_col_unvisited_nonneg(a, n - 1);
    }
}

proof fn lemma_unvisited(a: Seq<Vec<bool>>, b: Seq<Vec<bool>>, rows: int, c: int, r: int, m: int)
    requires
        0 <= c,
        0 <= r < rows,
        c < a.len(),
        a[c]@.len() == rows,
        !a[c]@[r],
        b[c]@ == a[c]@.update(r, true),
        forall|j: int| 0 <= j < m && j != c ==> #[trigger] b[j]@ == a[j]@,
    ensures
        unvisited(b, rows, m) == unvisited(a, rows, m) - if c < m {
            1int
        } else {
            0
        },
        unvisited(b, rows, m) >= 0,
    decreases m,
{
    if m > 0 {
        lemma_unvisited(a, b, rows, c, r, m - 1);
        if m - 1 == c {
            lemma_col_unvisited(a[c]@, b[c]@, r, rows);
        } else {
            lemma_col_unvisited_nonneg(b[m - 1]@, rows);
        }
    }
}

// ---------------------------------------------------------------------------
// Operations
// ---------------------------------------------------------------------------

impl Field {
    /// A covered field without mines yet.
    pub fn new(cols: u32, rows: u32) -> (f: Field)
        requires
            cols <= i32::MAX,
            rows <= i32::MAX,
        ensures
            f.wf(),
            f.cols == cols,
            f.rows == rows,
            !f.mines_initialized,
            forall|c: int, r: int|
                inside(cols as int, rows as int, (c, r)) ==> #[trigger] f.squares@[c]@[r] == (Square {
                    mine: false,
                    covered: true,
                    revealed: false,
                    flagged: false,
                    questioned: false,
                    adjacent: 0,
                }),
    {
        let mut squares: Vec<Vec<Square>> = Vec::new();
        let mut c: u32 = 0;
        while c < cols
            invariant
                c <= cols,
                squares@.len() == c,
                forall|x: int| 0 <= x < c ==> (#[trigger] squares@[x])@.len() == rows,
                forall|x: int, y: int|
                    0 <= x < c && 0 <= y < rows ==> #[trigger] squares@[x]@[y] == (Square {
                        mine: false,
                        covered: true,
                        revealed: false,
                        flagged: false,
                        questioned: false,
                        adjacent: 0,
                    }),
            decreases cols - c,
        {
            let mut column: Vec<Square> = Vec::new();
            let mut r: u32 = 0;
            while r < rows
                invariant
                    r <= rows,
                    column@.len() == r,
                    forall|y: int| 0 <= y < r ==> #[trigger] column@[y] == (Square {
                        mine: false,
                        covered: true,
                        revealed: false,
                        flagged: false,
                        questioned: false,
                        adjacent: 0,
                    }),
                decreases rows - r,
            {
                column.push(
                    Square { mine: false, covered: true, revealed: false, flagged: false, questioned: false, adjacent: 0 },
                );
                r += 1;
            }
            squares.push(column);
            c += 1;
        }
        Field { cols, rows, squares, mines_initialized: false }
    }

    /// Replaces the square at `(c, r)`.
    fn put(&mut self, c: u32, r: u32, s: Square)
        requires
            old(self).squares@.len() == old(self).cols,
            forall|x: int| 0 <= x < old(self).cols ==> (#[trigger] old(self).squares@[x])@.len() == old(self).rows,
            c < old(self).cols,
            r < old(self).rows,
        ensures
            final(self).cols == old(self).cols,
            final(self).rows == old(self).rows,
            final(self).mines_initialized == old(self).mines_initialized,
            final(self).squares@.len() == final(self).cols,
            forall|x: int| 0 <= x < final(self).cols ==> (#[trigger] final(self).squares@[x])@.len() == final(self).rows,
            forall|x: int, y: int|
                inside(final(self).cols as int, final(self).rows as int, (x, y)) ==> #[trigger] final(self).squares@[x]@[y]
                    == if x == c && y == r {
                    s
                } else {
                    old(self).squares@[x]@[y]
                },
    {
        let ghost before = self.squares@;
        self.squares[c as usize].set(r as usize, s);
        assert forall|x: int| 0 <= x < self.cols implies (#[trigger] self.squares@[x])@.len() == self.rows by {
            if x != c {
                assert(self.squares@[x] == before[x]);
            }
        }
        assert forall|x: int, y: int| inside(self.cols as int, self.rows as int, (x, y)) implies #[trigger] self.squares@[x]@[y]
            == if x == c && y == r {
            s
        } else {
            before[x]@[y]
        } by {
            if x != c {
                assert(self.squares@[x] == before[x]);
            }
        }
    }

    /// Number of mines around `(c, r)`, the square itself left out.
    fn count_mines_around(&self, c: u32, r: u32) -> (count: u8)
        requires
            self.squares@.len() == self.cols,
            forall|x: int| 0 <= x < self.cols ==> (#[trigger] self.squares@[x])@.len() == self.rows,
            self.cols <= i32::MAX,
            self.rows <= i32::MAX,
            c < self.cols,
            r < self.rows,
        ensures
            count == mines_around(self.squares@, self.cols as int, self.rows as int, (c as int, r as int), 9),
    {
        let ghost p = (c as int, r as int);
        let mut count: u8 = 0;
        let mut dc: i32 = -1;
        while dc <= 1
            invariant
                -1 <= dc <= 2,
                p == (c as int, r as int),
                c < self.cols <= i32::MAX,
                r < self.rows <= i32::MAX,
                self.squares@.len() == self.cols,
                forall|x: int| 0 <= x < self.cols ==> (#[trigger] self.squares@[x])@.len() == self.rows,
                count == mines_around(self.squares@, self.cols as int, self.rows as int, p, (dc + 1) * 3),
                count <= (dc + 1) * 3,
            decreases 2 - dc,
        {
            let mut dr: i32 = -1;
            while dr <= 1
                invariant
                    -1 <= dc <= 1,
                    -1 <= dr <= 2,
                    p == (c as int, r as int),
                    c < self.cols <= i32::MAX,
                    r < self.rows <= i32::MAX,
                    self.squares@.len() == self.cols,
                    forall|x: int| 0 <= x < self.cols ==> (#[trigger] self.squares@[x])@.len() == self.rows,
                    count == mines_around(self.squares@, self.cols as int, self.rows as int, p, (dc + 1) * 3 + dr + 1),
                    count <= (dc + 1) * 3 + dr + 1,
                decreases 2 - dr,
            {
                proof {
                    let k: int = (dc + 1) * 3 + dr + 1;
                    let a: int = dc + 1;
                    let b: int = dr + 1;
                    assert(k / 3 == a && k % 3 == b) by (nonlinear_arith)
                        requires
                            k == a * 3 + b,
                            0 <= a,
                            0 <= b < 3,
                    ;
                    assert(block(p, k).0 == c + dc);
                    assert(block(p, k).1 == r + dr);
                }
                if !(dc == 0 && dr == 0) {
                    let nc = c as i32 + dc;
                    let nr = r as i32 + dr;
                    if nc >= 0 && nr >= 0 && nc < self.cols as i32 && nr < self.rows as i32
                        && self.squares[nc as usize][nr as usize].mine {
                        count += 1;
                    }
                }
                dr += 1;
            }
            dc += 1;
        }
        count
    }

    /// Lays a mine on each of the first `mine_count` positions of `chosen`
    /// (all of them when there are fewer), then writes on every square the
    /// number of mines around it.
    pub fn lay_mines(&mut self, chosen: &Vec<(u32, u32)>, mine_count: u32)
        requires
            old(self).squares@.len() == old(self).cols,
            forall|x: int| 0 <= x < old(self).cols ==> (#[trigger] old(self).squares@[x])@.len() == old(self).rows,
            old(self).cols <= i32::MAX,
            old(self).rows <= i32::MAX,
            forall|k: int| 0 <= k < chosen@.len() ==> (#[trigger] chosen@[k]).0 < old(self).cols && chosen@[k].1 < old(self).rows,
        ensures
            final(self).wf(),
            final(self).mines_initialized,
            final(self).cols == old(self).cols,
            final(self).rows == old(self).rows,
            final(self).counts_ok(),
            forall|c: int, r: int|
                inside(old(self).cols as int, old(self).rows as int, (c, r)) ==> {
                    let s = #[trigger] final(self).squares@[c]@[r];
                    let o = old(self).squares@[c]@[r];
                    &&& s.mine == (o.mine || chosen@.take(
                        if mine_count < chosen@.len() {
                            mine_count as int
                        } else {
                            chosen@.len() as int
                        },
                    ).contains((c as u32, r as u32)))
                    &&& s.covered == o.covered
                    &&& s.revealed == o.revealed
                    &&& s.flagged == o.flagged
                    &&& s.questioned == o.questioned
                },
    {
        let ghost g0 = self.squares@;
        let n: usize = if (mine_count as usize) < chosen.len() {
            mine_count as usize
        } else {
            chosen.len()
        };
        let mut i: usize = 0;
        while i < n
            invariant
                i <= n,
                n <= chosen@.len(),
                n == if mine_count < chosen@.len() {
                    mine_count as int
                } else {
                    chosen@.len() as int
                },
                self.squares@.len() == self.cols,
                forall|x: int| 0 <= x < self.cols ==> (#[trigger] self.squares@[x])@.len() == self.rows,
                self.cols == old(self).cols,
                self.rows == old(self).rows,
                self.cols <= i32::MAX,
                self.rows <= i32::MAX,
                forall|k: int| 0 <= k < chosen@.len() ==> (#[trigger] chosen@[k]).0 < self.cols && chosen@[k].1 < self.rows,
                forall|c: int, r: int|
                    inside(self.cols as int, self.rows as int, (c, r)) ==> {
                        let s = #[trigger] self.squares@[c]@[r];
                        let o = g0[c]@[r];
                        &&& s.mine == (o.mine || chosen@.take(i as int).contains((c as u32, r as u32)))
                        &&& s.covered == o.covered
                        &&& s.revealed == o.revealed
                        &&& s.flagged == o.flagged
                        &&& s.questioned == o.questioned
                    },
            decreases n - i,
        {
            let (mc, mr) = chosen[i];
            let mut s = self.squares[mc as usize][mr as usize];
            s.mine = true;
            let ghost before = self.squares@;
            self.put(mc, mr, s);
            proof {
                let t0 = chosen@.take(i as int);
                let t1 = chosen@.take(i + 1);
                assert(t1 =~= t0.push((mc, mr)));
                crate::seq_facts::lemma_push_contains(t0, (mc, mr));
                assert forall|c: int, r: int| inside(self.cols as int, self.rows as int, (c, r)) implies {
                    let s2 = #[trigger] self.squares@[c]@[r];
                    let o = g0[c]@[r];
                    &&& s2.mine == (o.mine || t1.contains((c as u32, r as u32)))
                    &&& s2.covered == o.covered
                    &&& s2.revealed == o.revealed
                    &&& s2.flagged == o.flagged
                    &&& s2.questioned == o.questioned
                } by {
                    let b = before[c]@[r];
                    assert(b.mine == (g0[c]@[r].mine || t0.contains((c as u32, r as u32))));
                }
            }
            i += 1;
        }
        let ghost laid = self.squares@;
        let mut c: u32 = 0;
        while c < self.cols
            invariant
                c <= self.cols,
                self.squares@.len() == self.cols,
                forall|x: int| 0 <= x < self.cols ==> (#[trigger] self.squares@[x])@.len() == self.rows,
                self.cols == old(self).cols,
                self.rows == old(self).rows,
                self.cols <= i32::MAX,
                self.rows <= i32::MAX,
                laid.len() == self.cols,
                forall|x: int| 0 <= x < self.cols ==> (#[trigger] laid[x])@.len() == self.rows,
                forall|x: int, y: int|
                    inside(self.cols as int, self.rows as int, (x, y)) ==> {
                        let s = #[trigger] self.squares@[x]@[y];
                        let l = laid[x]@[y];
                        &&& s == Square { adjacent: s.adjacent, ..l }
                        &&& x < c ==> s.adjacent == mines_around(laid, self.cols as int, self.rows as int, (x, y), 9)
                    },
            decreases self.cols - c,
        {
            let mut r: u32 = 0;
            while r < self.rows
                invariant
                    c < self.cols,
                    r <= self.rows,
                    self.squares@.len() == self.cols,
                    forall|x: int| 0 <= x < self.cols ==> (#[trigger] self.squares@[x])@.len() == self.rows,
                    self.cols == old(self).cols,
                    self.rows == old(self).rows,
                    self.cols <= i32::MAX,
                    self.rows <= i32::MAX,
                    laid.len() == self.cols,
                    forall|x: int| 0 <= x < self.cols ==> (#[trigger] laid[x])@.len() == self.rows,
                    forall|x: int, y: int|
                        inside(self.cols as int, self.rows as int, (x, y)) ==> {
                            let s = #[trigger] self.squares@[x]@[y];
                            let l = laid[x]@[y];
                            &&& s == Square { adjacent: s.adjacent, ..l }
                            &&& (x < c || (x == c && y < r)) ==> s.adjacent == mines_around(
                                laid,
                                self.cols as int,
                                self.rows as int,
                                (x, y),
                                9,
                            )
                        },
                decreases self.rows - r,
            {
                proof {
                    assert forall|q: (int, int)| inside(self.cols as int, self.rows as int, q) implies (#[trigger] at(
                        self.squares@,
                        q,
                    )).mine == at(laid, q).mine by {
                        assert(self.squares@[q.0]@[q.1] == Square { adjacent: self.squares@[q.0]@[q.1].adjacent, ..laid[q.0]@[q.1] });
                    }
                    lemma_mines_around_same(self.squares@, laid, self.cols as int, self.rows as int, (c as int, r as int), 9);
                }
                let count = self.count_mines_around(c, r);
                let mut s = self.squares[c as usize][r as usize];
                s.adjacent = count;
                self.put(c, r, s);
                r += 1;
            }
            c += 1;
        }
        proof {
            let fin = self.squares@;
            assert forall|q: (int, int)| inside(self.cols as int, self.rows as int, q) implies (#[trigger] at(fin, q)).mine
                == at(laid, q).mine by {
                assert(fin[q.0]@[q.1] == Square { adjacent: fin[q.0]@[q.1].adjacent, ..laid[q.0]@[q.1] });
            }
            assert forall|x: int, y: int| inside(self.cols as int, self.rows as int, (x, y)) implies (#[trigger] fin[x]@[y]).adjacent
                == mines_around(fin, self.cols as int, self.rows as int, (x, y), 9) by {
                lemma_mines_around_same(fin, laid, self.cols as int, self.rows as int, (x, y), 9);
            }
        }
        self.mines_initialized = true;
    }
}


/// The squares of row `r` among its first `c` columns, `safe` left out.
pub open spec fn row_candidates(safe: (u32, u32), r: int, c: int) -> Seq<(u32, u32)>
    decreases c,
{
    if c <= 0 {
        Seq::empty()
    } else {
        let p = ((c - 1) as u32, r as u32);
        row_candidates(safe, r, c - 1) + if p == safe {
            Seq::empty()
        } else {
            seq![p]
        }
    }
}

/// The squares of the first `r` rows, row by row, `safe` left out: where
/// the mines may go when the first click is on `safe`.
pub open spec fn candidates(cols: int, safe: (u32, u32), r: int) -> Seq<(u32, u32)>
    decreases r,
{
    if r <= 0 {
        Seq::empty()
    } else {
        candidates(cols, safe, r - 1) + row_candidates(safe, r - 1, cols)
    }
}

/// `fin` is `g` with a mine laid on each position of `chosen` and every
/// square showing the number of mines around it.
pub open spec fn laid_out(g: Seq<Vec<Square>>, fin: Seq<Vec<Square>>, cols: int, rows: int, chosen: Seq<(u32, u32)>) -> bool {
    &&& fin.len() == cols
    &&& forall|c: int| 0 <= c < cols ==> (#[trigger] fin[c])@.len() == rows
    &&& forall|c: int, r: int|
        inside(cols, rows, (c, r)) ==> {
            let s = #[trigger] fin[c]@[r];
            let o = g[c]@[r];
            &&& s.mine == (o.mine || chosen.contains((c as u32, r as u32)))
            &&& s.covered == o.covered
            &&& s.revealed == o.revealed
            &&& s.flagged == o.flagged
            &&& s.questioned == o.questioned
            &&& s.adjacent == mines_around(fin, cols, rows, (c, r), 9)
        }
}

impl Field {
    /// Every square but `safe`, row by row.
    fn candidate_positions(&self, safe: (u32, u32)) -> (v: Vec<(u32, u32)>)
        ensures
            v@ == candidates(self.cols as int, safe, self.rows as int),
    {
        let mut v: Vec<(u32, u32)> = Vec::new();
        let mut r: u32 = 0;
        while r < self.rows
            invariant
                r <= self.rows,
                v@ == candidates(self.cols as int, safe, r as int),
            decreases self.rows - r,
        {
            let mut c: u32 = 0;
            while c < self.cols
                invariant
                    r < self.rows,
                    c <= self.cols,
                    v@ == candidates(self.cols as int, safe, r as int) + row_candidates(safe, r as int, c as int),
                decreases self.cols - c,
            {
                let ghost before = v@;
                if !(c == safe.0 && r == safe.1) {
                    v.push((c, r));
                }
                proof {
                    let base = candidates(self.cols as int, safe, r as int);
                    let row = row_candidates(safe, r as int, c as int);
                    assert(before == base + row);
                    if (c, r) != safe {
                        assert(v@ =~= base + (row + seq![(c, r)]));
                    } else {
                        assert(row + Seq::<(u32, u32)>::empty() =~= row);
                    }
                }
                c += 1;
            }
            r += 1;
        }
        v
    }

    /// Lays the mines for a first click on `safe`: the squares other than
    /// `safe` are shuffled and the first `mine_count` of them get a mine;
    /// then every square gets its count.
    pub fn initialize_mines(&mut self, mine_count: u32, safe: (u32, u32))
        requires
            old(self).wf(),
        ensures
            final(self).wf(),
            final(self).mines_initialized,
            final(self).cols == old(self).cols,
            final(self).rows == old(self).rows,
            exists|order: Seq<(u32, u32)>|
                #![trigger order.to_multiset()]
                order.to_multiset() == candidates(old(self).cols as int, safe, old(self).rows as int).to_multiset()
                    && laid_out(
                    old(self).squares@,
                    final(self).squares@,
                    old(self).cols as int,
                    old(self).rows as int,
                    order.take(
                        if mine_count < order.len() {
                            mine_count as int
                        } else {
                            order.len() as int
                        },
                    ),
                ),
    {
        let mut positions = self.candidate_positions(safe);
        let ghost cands = positions@;
        shuffle(&mut positions);
        proof {
            positions@.to_multiset_ensures();
            cands.to_multiset_ensures();
        }
        assert forall|k: int| 0 <= k < positions@.len() implies (#[trigger] positions@[k]).0 < self.cols
            && positions@[k].1 < self.rows by {
            assert(positions@.to_multiset().count(positions@[k]) > 0);
            assert(cands.contains(positions@[k]));
            lemma_candidates_inside(self.cols as int, safe, self.rows as int, positions@[k]);
        }
        self.lay_mines(&positions, mine_count);
    }
}

proof fn lemma_row_candidates_inside(safe: (u32, u32), r: int, c: int, p: (u32, u32))
    requires
        row_candidates(safe, r, c).contains(p),
        0 <= r <= u32::MAX,
        c <= u32::MAX + 1,
    ensures
        p.0 < c,
        p.1 == r,
    decreases c,
{
    if c > 0 {
        let q = ((c - 1) as u32, r as u32);
        let prev = row_candidates(safe, r, c - 1);
        let last: Seq<(u32, u32)> = if q == safe {
            Seq::empty()
        } else {
            seq![q]
        };
        let i = choose|i: int| 0 <= i < (prev + last).len() && (prev + last)[i] == p;
        if i < prev.len() {
            assert(prev[i] == p);
            lemma_row_candidates_inside(safe, r, c - 1, p);
        } else {
            assert(last[i - prev.len()] == p);
        }
    }
}

proof fn lemma_candidates_inside(cols: int, safe: (u32, u32), r: int, p: (u32, u32))
    requires
        candidates(cols, safe, r).contains(p),
        0 <= cols <= u32::MAX,
        r <= u32::MAX + 1,
    ensures
        p.0 < cols,
        p.1 < r,
    decreases r,
{
    if r > 0 {
        let prev = candidates(cols, safe, r - 1);
        let row = row_candidates(safe, r - 1, cols);
        let i = choose|i: int| 0 <= i < (prev + row).len() && (prev + row)[i] == p;
        if i < prev.len() {
            assert(prev[i] == p);
            lemma_candidates_inside(cols, safe, r - 1, p);
        } else {
            assert(row[i - prev.len()] == p);
            lemma_row_candidates_inside(safe, r - 1, cols, p);
        }
    }
}


pub open spec fn marked(vis: Seq<Vec<bool>>, q: (int, int)) -> bool {
    vis[q.0]@[q.1]
}

/// `q` may be queued by the spreading from `start`: `start` itself, or a
/// square without a mine next to one that the spreading opens and that has
/// no mine around.
pub open spec fn reached(g: Seq<Vec<Square>>, cols: int, rows: int, start: (int, int), q: (int, int)) -> bool {
    ||| q == start
    ||| exists|v: (int, int)|
        #![trigger near(v, q)]
        spreads_to(g, cols, rows, start, v) && inside(cols, rows, v) && at(g, v).adjacent == 0 && near(v, q)
            && !at(g, q).mine
}

/// A grid of `cols` columns of `rows` marks, all clear.
fn fresh_marks(cols: u32, rows: u32) -> (v: Vec<Vec<bool>>)
    ensures
        v@.len() == cols,
        forall|c: int| 0 <= c < cols ==> (#[trigger] v@[c])@.len() == rows,
        forall|c: int, r: int| inside(cols as int, rows as int, (c, r)) ==> !(#[trigger] v@[c]@[r]),
{
    let mut v: Vec<Vec<bool>> = Vec::new();
    let mut c: u32 = 0;
    while c < cols
        invariant
            c <= cols,
            v@.len() == c,
            forall|x: int| 0 <= x < c ==> (#[trigger] v@[x])@.len() == rows,
            forall|x: int, y: int| 0 <= x < c && 0 <= y < rows ==> !(#[trigger] v@[x]@[y]),
        decreases cols - c,
    {
        let mut column: Vec<bool> = Vec::new();
        let mut r: u32 = 0;
        while r < rows
            invariant
                r <= rows,
                column@.len() == r,
                forall|y: int| 0 <= y < r ==> !(#[trigger] column@[y]),
            decreases rows - r,
        {
            column.push(false);
            r += 1;
        }
        v.push(column);
        c += 1;
    }
    v
}

/// Sets the mark at `(c, r)`.
fn set_mark(vis: &mut Vec<Vec<bool>>, c: u32, r: u32)
    requires
        c < old(vis)@.len(),
        r < old(vis)@[c as int]@.len(),
    ensures
        final(vis)@.len() == old(vis)@.len(),
        final(vis)@[c as int]@ == old(vis)@[c as int]@.update(r as int, true),
        forall|x: int| 0 <= x < final(vis)@.len() && x != c ==> #[trigger] final(vis)@[x] == old(vis)@[x],
{
    vis[c as usize].set(r as usize, true);
}

impl Field {
    /// Opens `start` and, breadth first, every square that the spreading
    /// from it reaches.
    fn flood_open(&mut self, sc: u32, sr: u32)
        requires
            old(self).wf(),
            sc < old(self).cols,
            sr < old(self).rows,
            openable(old(self).sq(sc as int, sr as int)),
            !old(self).sq(sc as int, sr as int).mine,
        ensures
            final(self).wf(),
            final(self).cols == old(self).cols,
            final(self).rows == old(self).rows,
            final(self).mines_initialized == old(self).mines_initialized,
            forall|c: int, r: int|
                inside(old(self).cols as int, old(self).rows as int, (c, r)) ==> #[trigger] final(self).squares@[c]@[r]
                    == if spreads_to(
                    old(self).squares@,
                    old(self).cols as int,
                    old(self).rows as int,
                    (sc as int, sr as int),
                    (c, r),
                ) {
                    opened(old(self).squares@[c]@[r])
                } else {
                    old(self).squares@[c]@[r]
                },
    {
        let ghost s0 = self.squares@;
        let ghost cols = self.cols as int;
        let ghost rows = self.rows as int;
        let ghost start = (sc as int, sr as int);
        let mut vis = fresh_marks(self.cols, self.rows);
        set_mark(&mut vis, sc, sr);
        let mut queue: VecDeque<(u32, u32)> = VecDeque::new();
        queue.push_back((sc, sr));
        proof {
            lemma_unvisited_nonneg(vis@, rows, cols);
            assert(spot(queue@[0]) == start);
        }
        while queue.len() > 0
            invariant
                self.cols == cols,
                self.rows == rows,
                self.mines_initialized == old(self).mines_initialized,
                self.wf(),
                s0 == old(self).squares@,
                old(self).wf(),
                inside(cols, rows, start),
                openable(at(s0, start)),
                !at(s0, start).mine,
                vis@.len() == cols,
                forall|x: int| 0 <= x < cols ==> (#[trigger] vis@[x])@.len() == rows,
                marked(vis@, start),
                flood_inv(s0, self.squares@, cols, rows, start, vis@, queue@),
                unvisited(vis@, rows, cols) >= 0,
            decreases unvisited(vis@, rows, cols), queue@.len(),
        {
            let ghost g_before = self.squares@;
            let ghost vis_before = vis@;
            let ghost queue_before = queue@;
            let front = queue.pop_front();
            if let Some((c, r)) = front {
                let ghost q = (c as int, r as int);
                let ghost popped = queue@;
                proof {
                    assert(queue_before[0] == (c, r));
                    assert forall|i: int| 0 <= i < popped.len() implies popped[i] == queue_before[i + 1] by {}
                }
                let s = self.squares[c as usize][r as usize];
                if s.covered && !s.flagged {
                    self.put(c, r, Square { covered: false, revealed: true, ..s });
                    proof {
                        assert(at(g_before, q) == at(s0, q));
                        lemma_reached_spreads(s0, cols, rows, start, q);
                    }
                    if s.adjacent == 0 {
                        self.queue_neighbours(c, r, &mut vis, &mut queue);
                    }
                    proof {
                        let g1 = self.squares@;
                        assert forall|x: (int, int)| inside(cols, rows, x) implies #[trigger] at(g1, x) == if x == q {
                            opened(at(s0, q))
                        } else {
                            at(g_before, x)
                        } by {
                            assert(g1[x.0]@[x.1] == if x.0 == c && x.1 == r {
                                Square { covered: false, revealed: true, ..s }
                            } else {
                                g_before[x.0]@[x.1]
                            });
                        }
                        lemma_after_open(s0, cols, rows, start, q, g_before, g1, vis_before, vis@, queue_before, popped, queue@);
                    }
                } else {
                    proof {
                        lemma_after_skip(s0, self.squares@, cols, rows, start, q, vis@, queue_before, popped);
                    }
                }
            }
        }
        proof {
            let g = self.squares@;
            assert forall|v: (int, int), n: (int, int)|
                #![trigger at(g, v), near(v, n)]
                inside(cols, rows, v) && at(g, v) != at(s0, v) && at(s0, v).adjacent == 0 && near(v, n) && inside(
                    cols,
                    rows,
                    n,
                ) && !at(s0, n).mine && openable(at(s0, n)) implies at(g, n) != at(s0, n) by {
                assert(marked(vis@, n));
                assert(!queue@.contains((n.0 as u32, n.1 as u32)));
            }
            assert(!queue@.contains((sc, sr)));
            assert(at(g, start) != at(s0, start));
            assert forall|c: int, r: int| inside(cols, rows, (c, r)) implies #[trigger] g[c]@[r] == if spreads_to(
                s0,
                cols,
                rows,
                start,
                (c, r),
            ) {
                opened(s0[c]@[r])
            } else {
                s0[c]@[r]
            } by {
                let q = (c, r);
                assert(at(g, q) == g[c]@[r]);
                if spreads_to(s0, cols, rows, start, q) {
                    let p = choose|p: Seq<(int, int)>| #[trigger] spread_path(s0, cols, rows, p) && p[0] == start && p.last() == q;
                    lemma_chain_opened(s0, g, cols, rows, p, p.len() - 1);
                }
            }
        }
    }
}

proof fn lemma_unvisited_nonneg(vis: Seq<Vec<bool>>, rows: int, m: int)
    ensures
        unvisited(vis, rows, m) >= 0,
    decreases m,
{
    if m > 0 {
        lemma_unvisited_nonneg(vis, rows, m - 1);
        lemma_col_unvisited_nonneg(vis[m - 1]@, rows);
    }
}


pub open spec fn spot(x: (u32, u32)) -> (int, int) {
    (x.0 as int, x.1 as int)
}

pub open spec fn key(q: (int, int)) -> (u32, u32) {
    (q.0 as u32, q.1 as u32)
}

/// Position of `q` in the 3x3 block around `p`, column offset first.
pub open spec fn block_index(p: (int, int), q: (int, int)) -> int {
    (q.0 - p.0 + 1) * 3 + (q.1 - p.1 + 1)
}

pub open spec fn same_marks_shape(a: Seq<Vec<bool>>, b: Seq<Vec<bool>>, cols: int, rows: int) -> bool {
    &&& a.len() == cols
    &&& b.len() == cols
    &&& forall|x: int| 0 <= x < cols ==> (#[trigger] a[x])@.len() == rows
    &&& forall|x: int| 0 <= x < cols ==> (#[trigger] b[x])@.len() == rows
}

/// From `(vis0, q0)` to `(vis1, q1)`: every square next to `p` without a
/// mine that was not marked gets marked and queued, in some order.
pub open spec fn neighbours_queued(
    g: Seq<Vec<Square>>,
    cols: int,
    rows: int,
    p: (int, int),
    vis0: Seq<Vec<bool>>,
    vis1: Seq<Vec<bool>>,
    q0: Seq<(u32, u32)>,
    q1: Seq<(u32, u32)>,
) -> bool {
    &&& same_marks_shape(vis0, vis1, cols, rows)
    &&& q0.len() <= q1.len()
    &&& forall|i: int| 0 <= i < q0.len() ==> #[trigger] q1[i] == q0[i]
    &&& forall|i: int|
        q0.len() <= i < q1.len() ==> {
            let n = spot(#[trigger] q1[i]);
            &&& inside(cols, rows, n)
            &&& near(p, n)
            &&& !at(g, n).mine
            &&& !marked(vis0, n)
            &&& marked(vis1, n)
        }
    &&& forall|i: int, j: int| q0.len() <= i < j < q1.len() ==> q1[i] != q1[j]
    &&& forall|n: (int, int)|
        inside(cols, rows, n) && #[trigger] marked(vis1, n) && !marked(vis0, n) ==> q1.contains(key(n))
    &&& forall|n: (int, int)| inside(cols, rows, n) && #[trigger] marked(vis0, n) ==> marked(vis1, n)
    &&& forall|n: (int, int)|
        inside(cols, rows, n) && near(p, n) && !(#[trigger] at(g, n)).mine ==> marked(vis1, n)
    &&& unvisited(vis1, rows, cols) + q1.len() == unvisited(vis0, rows, cols) + q0.len()
    &&& unvisited(vis1, rows, cols) <= unvisited(vis0, rows, cols)
}

impl Field {
    /// Marks and queues each square next to `(c, r)` that has no mine and
    /// is not marked yet.
    fn queue_neighbours(&self, c: u32, r: u32, vis: &mut Vec<Vec<bool>>, queue: &mut VecDeque<(u32, u32)>)
        requires
            self.wf(),
            c < self.cols,
            r < self.rows,
            old(vis)@.len() == self.cols,
            forall|x: int| 0 <= x < self.cols ==> (#[trigger] old(vis)@[x])@.len() == self.rows,
        ensures
            neighbours_queued(
                self.squares@,
                self.cols as int,
                self.rows as int,
                (c as int, r as int),
                old(vis)@,
                final(vis)@,
                old(queue)@,
                final(queue)@,
            ),
    {
        let ghost cols = self.cols as int;
        let ghost rows = self.rows as int;
        let ghost p = (c as int, r as int);
        let ghost g = self.squares@;
        let ghost vis0 = vis@;
        let ghost q0 = queue@;
        proof {
            lemma_unvisited_nonneg(vis0, rows, cols);
        }
        let mut dc: i32 = -1;
        while dc <= 1
            invariant
                -1 <= dc <= 2,
                self.wf(),
                g == self.squares@,
                cols == self.cols,
                rows == self.rows,
                p == (c as int, r as int),
                c < self.cols,
                r < self.rows,
                vis0 == old(vis)@,
                q0 == old(queue)@,
                neighbours_upto(g, cols, rows, p, vis0, vis@, q0, queue@, (dc + 1) * 3),
            decreases 2 - dc,
        {
            let mut dr: i32 = -1;
            while dr <= 1
                invariant
                    -1 <= dc <= 1,
                    -1 <= dr <= 2,
                    self.wf(),
                    g == self.squares@,
                    cols == self.cols,
                    rows == self.rows,
                    p == (c as int, r as int),
                    c < self.cols,
                    r < self.rows,
                    vis0 == old(vis)@,
                    q0 == old(queue)@,
                    neighbours_upto(g, cols, rows, p, vis0, vis@, q0, queue@, (dc + 1) * 3 + dr + 1),
                decreases 2 - dr,
            {
                let ghost k = (dc + 1) * 3 + dr + 1;
                let ghost vis_a = vis@;
                let ghost queue_a = queue@;
                if !(dc == 0 && dr == 0) {
                    let nc = c as i32 + dc;
                    let nr = r as i32 + dr;
                    if nc >= 0 && nr >= 0 && nc < self.cols as i32 && nr < self.rows as i32 {
                        let (uc, ur) = (nc as u32, nr as u32);
                        if !vis[uc as usize][ur as usize] && !self.squares[uc as usize][ur as usize].mine {
                            set_mark(vis, uc, ur);
                            queue.push_back((uc, ur));
                            proof {
                                lemma_unvisited(vis_a, vis@, rows, uc as int, ur as int, cols);
                                lemma_mark_step(g, cols, rows, p, vis0, vis_a, vis@, q0, queue_a, queue@, k, (uc as int, ur as int));
                            }
                        } else {
                            proof {
                                lemma_skip_step(g, cols, rows, p, vis0, vis@, q0, queue@, k, (nc as int, nr as int));
                            }
                        }
                    } else {
                        proof {
                            lemma_skip_step(g, cols, rows, p, vis0, vis@, q0, queue@, k, (nc as int, nr as int));
                        }
                    }
                } else {
                    proof {
                        lemma_skip_step(g, cols, rows, p, vis0, vis@, q0, queue@, k, p);
                    }
                }
                dr += 1;
            }
            dc += 1;
        }
        proof {
            lemma_neighbours_done(g, cols, rows, p, vis0, vis@, q0, queue@);
        }
    }
}

/// `neighbours_queued` with only the first `k` squares of the block done.
pub open spec fn neighbours_upto(
    g: Seq<Vec<Square>>,
    cols: int,
    rows: int,
    p: (int, int),
    vis0: Seq<Vec<bool>>,
    vis1: Seq<Vec<bool>>,
    q0: Seq<(u32, u32)>,
    q1: Seq<(u32, u32)>,
    k: int,
) -> bool {
    &&& same_marks_shape(vis0, vis1, cols, rows)
    &&& q0.len() <= q1.len()
    &&& forall|i: int| 0 <= i < q0.len() ==> #[trigger] q1[i] == q0[i]
    &&& forall|i: int|
        q0.len() <= i < q1.len() ==> {
            let n = spot(#[trigger] q1[i]);
            &&& inside(cols, rows, n)
            &&& near(p, n)
            &&& block_index(p, n) < k
            &&& !at(g, n).mine
            &&& !marked(vis0, n)
            &&& marked(vis1, n)
        }
    &&& forall|i: int, j: int| q0.len() <= i < j < q1.len() ==> q1[i] != q1[j]
    &&& forall|n: (int, int)|
        inside(cols, rows, n) && #[trigger] marked(vis1, n) && !marked(vis0, n) ==> q1.contains(key(n))
            && near(p, n) && block_index(p, n) < k
    &&& forall|n: (int, int)| inside(cols, rows, n) && #[trigger] marked(vis0, n) ==> marked(vis1, n)
    &&& forall|n: (int, int)|
        inside(cols, rows, n) && near(p, n) && block_index(p, n) < k && !(#[trigger] at(g, n)).mine ==> marked(vis1, n)
    &&& unvisited(vis1, rows, cols) + q1.len() == unvisited(vis0, rows, cols) + q0.len()
    &&& unvisited(vis1, rows, cols) <= unvisited(vis0, rows, cols)
    &&& unvisited(vis1, rows, cols) >= 0
}


proof fn lemma_skip_step(
    g: Seq<Vec<Square>>,
    cols: int,
    rows: int,
    p: (int, int),
    vis0: Seq<Vec<bool>>,
    vis1: Seq<Vec<bool>>,
    q0: Seq<(u32, u32)>,
    q1: Seq<(u32, u32)>,
    k: int,
    n: (int, int),
)
    requires
        neighbours_upto(g, cols, rows, p, vis0, vis1, q0, q1, k),
        -1 <= n.0 - p.0 <= 1,
        -1 <= n.1 - p.1 <= 1,
        block_index(p, n) == k,
        n == p || !inside(cols, rows, n) || marked(vis1, n) || at(g, n).mine,
    ensures
        neighbours_upto(g, cols, rows, p, vis0, vis1, q0, q1, k + 1),
{
    assert forall|m: (int, int)|
        inside(cols, rows, m) && near(p, m) && block_index(p, m) < k + 1 && !(#[trigger] at(g, m)).mine implies marked(
        vis1,
        m,
    ) by {
        if block_index(p, m) == k {
            assert(m == n);
        }
    }
}

proof fn lemma_mark_step(
    g: Seq<Vec<Square>>,
    cols: int,
    rows: int,
    p: (int, int),
    vis0: Seq<Vec<bool>>,
    vis_a: Seq<Vec<bool>>,
    vis_b: Seq<Vec<bool>>,
    q0: Seq<(u32, u32)>,
    qa: Seq<(u32, u32)>,
    qb: Seq<(u32, u32)>,
    k: int,
    n: (int, int),
)
    requires
        0 <= cols <= i32::MAX,
        0 <= rows <= i32::MAX,
        neighbours_upto(g, cols, rows, p, vis0, vis_a, q0, qa, k),
        inside(cols, rows, n),
        near(p, n),
        block_index(p, n) == k,
        !marked(vis_a, n),
        !at(g, n).mine,
        vis_b.len() == cols,
        vis_b[n.0]@ == vis_a[n.0]@.update(n.1, true),
        forall|x: int| 0 <= x < cols && x != n.0 ==> #[trigger] vis_b[x] == vis_a[x],
        qb == qa.push(key(n)),
        unvisited(vis_b, rows, cols) == unvisited(vis_a, rows, cols) - 1,
        unvisited(vis_b, rows, cols) >= 0,
    ensures
        neighbours_upto(g, cols, rows, p, vis0, vis_b, q0, qb, k + 1),
{
    assert forall|m: (int, int)| inside(cols, rows, m) implies #[trigger] marked(vis_b, m) == (marked(vis_a, m) || m == n) by {
        if m.0 != n.0 {
            assert(vis_b[m.0] == vis_a[m.0]);
        }
    }
    assert forall|x: int| 0 <= x < cols implies (#[trigger] vis_b[x])@.len() == rows by {
        if x != n.0 {
            assert(vis_b[x] == vis_a[x]);
        }
    }
    assert(qb[qa.len() as int] == key(n));
    assert(spot(key(n)) == n);
    assert forall|i: int| q0.len() <= i < qb.len() implies {
        let m = spot(#[trigger] qb[i]);
        &&& inside(cols, rows, m)
        &&& near(p, m)
        &&& block_index(p, m) < k + 1
        &&& !at(g, m).mine
        &&& !marked(vis0, m)
        &&& marked(vis_b, m)
    } by {
        if i < qa.len() {
            assert(qb[i] == qa[i]);
        }
    }
    assert forall|i: int, j: int| q0.len() <= i < j < qb.len() implies qb[i] != qb[j] by {
        assert(qb[i] == qa[i]);
        if j == qa.len() {
            assert(marked(vis_a, spot(qa[i])));
        } else {
            assert(qb[j] == qa[j]);
        }
    }
    assert forall|m: (int, int)| inside(cols, rows, m) && #[trigger] marked(vis_b, m) && !marked(vis0, m) implies qb.contains(
        key(m),
    ) && near(p, m) && block_index(p, m) < k + 1 by {
        if m == n {
            assert(qb[qa.len() as int] == key(m));
        } else {
            assert(qa.contains(key(m)));
            let i = choose|i: int| 0 <= i < qa.len() && qa[i] == key(m);
            assert(qb[i] == key(m));
        }
    }
    assert forall|m: (int, int)|
        inside(cols, rows, m) && near(p, m) && block_index(p, m) < k + 1 && !(#[trigger] at(g, m)).mine implies marked(
        vis_b,
        m,
    ) by {
        if block_index(p, m) == k {
            assert(m == n);
        }
    }
    assert forall|m: (int, int)| inside(cols, rows, m) && #[trigger] marked(vis0, m) implies marked(vis_b, m) by {}
    assert forall|i: int| 0 <= i < q0.len() implies #[trigger] qb[i] == q0[i] by {
        assert(qb[i] == qa[i]);
    }
}

proof fn lemma_neighbours_done(
    g: Seq<Vec<Square>>,
    cols: int,
    rows: int,
    p: (int, int),
    vis0: Seq<Vec<bool>>,
    vis1: Seq<Vec<bool>>,
    q0: Seq<(u32, u32)>,
    q1: Seq<(u32, u32)>,
)
    requires
        neighbours_upto(g, cols, rows, p, vis0, vis1, q0, q1, 9),
    ensures
        neighbours_queued(g, cols, rows, p, vis0, vis1, q0, q1),
{
    assert forall|n: (int, int)| inside(cols, rows, n) && near(p, n) && !(#[trigger] at(g, n)).mine implies marked(vis1, n) by {
        assert(block_index(p, n) < 9);
    }
}


/// A queued square: inside, marked, not opened yet, and reached by the
/// spreading.
pub open spec fn queued_ok(
    s0: Seq<Vec<Square>>,
    g: Seq<Vec<Square>>,
    cols: int,
    rows: int,
    start: (int, int),
    vis: Seq<Vec<bool>>,
    x: (u32, u32),
) -> bool {
    let q = spot(x);
    &&& inside(cols, rows, q)
    &&& marked(vis, q)
    &&& at(g, q) == at(s0, q)
    &&& reached(s0, cols, rows, start, q)
}

/// What holds of the breadth first opening from `start` on the field `s0`
/// at each step, `g` being the field so far.
pub open spec fn flood_inv(
    s0: Seq<Vec<Square>>,
    g: Seq<Vec<Square>>,
    cols: int,
    rows: int,
    start: (int, int),
    vis: Seq<Vec<bool>>,
    queue: Seq<(u32, u32)>,
) -> bool {
    &&& forall|q: (int, int)|
        inside(cols, rows, q) ==> #[trigger] at(g, q) == at(s0, q) || (at(g, q) == opened(at(s0, q)) && spreads_to(
            s0,
            cols,
            rows,
            start,
            q,
        ))
    &&& forall|q: (int, int)| inside(cols, rows, q) && #[trigger] at(g, q) != at(s0, q) ==> marked(vis, q)
    &&& forall|i: int| 0 <= i < queue.len() ==> queued_ok(s0, g, cols, rows, start, vis, #[trigger] queue[i])
    &&& forall|i: int, j: int| 0 <= i < j < queue.len() ==> queue[i] != queue[j]
    &&& forall|q: (int, int)|
        #![trigger marked(vis, q)]
        inside(cols, rows, q) && marked(vis, q) && !queue.contains(key(q)) && openable(at(s0, q)) ==> at(g, q) != at(
            s0,
            q,
        )
    &&& forall|v: (int, int), n: (int, int)|
        #![trigger at(g, v), near(v, n)]
        inside(cols, rows, v) && at(g, v) != at(s0, v) && at(s0, v).adjacent == 0 && near(v, n) && inside(cols, rows, n)
            && !at(s0, n).mine ==> marked(vis, n)
}

proof fn lemma_reached_spreads(s0: Seq<Vec<Square>>, cols: int, rows: int, start: (int, int), q: (int, int))
    requires
        reached(s0, cols, rows, start, q),
        inside(cols, rows, q),
        openable(at(s0, q)),
    ensures
        spreads_to(s0, cols, rows, start, q),
{
    if q == start {
        let p = seq![start];
        assert(spread_path(s0, cols, rows, p));
        assert(p[0] == start && p.last() == q);
    } else {
        let v = choose|v: (int, int)|
            #![trigger near(v, q)]
            spreads_to(s0, cols, rows, start, v) && inside(cols, rows, v) && at(s0, v).adjacent == 0 && near(v, q)
                && !at(s0, q).mine;
        lemma_spread_step(s0, cols, rows, start, v, q);
    }
}

proof fn lemma_after_skip(
    s0: Seq<Vec<Square>>,
    g: Seq<Vec<Square>>,
    cols: int,
    rows: int,
    start: (int, int),
    q: (int, int),
    vis: Seq<Vec<bool>>,
    qb: Seq<(u32, u32)>,
    popped: Seq<(u32, u32)>,
)
    requires
        0 <= cols <= i32::MAX,
        0 <= rows <= i32::MAX,
        flood_inv(s0, g, cols, rows, start, vis, qb),
        qb.len() > 0,
        spot(qb[0]) == q,
        popped.len() == qb.len() - 1,
        forall|i: int| 0 <= i < popped.len() ==> popped[i] == qb[i + 1],
        !openable(at(g, q)),
    ensures
        flood_inv(s0, g, cols, rows, start, vis, popped),
{
    assert(queued_ok(s0, g, cols, rows, start, vis, qb[0]));
    assert forall|i: int| 0 <= i < popped.len() implies queued_ok(s0, g, cols, rows, start, vis, #[trigger] popped[i]) by {
        assert(queued_ok(s0, g, cols, rows, start, vis, qb[i + 1]));
    }
    assert forall|i: int, j: int| 0 <= i < j < popped.len() implies popped[i] != popped[j] by {
        assert(qb[i + 1] != qb[j + 1]);
    }
    assert forall|m: (int, int)|
        #![trigger marked(vis, m)]
        inside(cols, rows, m) && marked(vis, m) && !popped.contains(key(m)) && openable(at(s0, m)) implies at(g, m) != at(
        s0,
        m,
    ) by {
        if key(m) == qb[0] {
            assert(spot(key(m)) == m);
        } else {
            if qb.contains(key(m)) {
                let i = choose|i: int| 0 <= i < qb.len() && qb[i] == key(m);
                assert(popped[i - 1] == key(m));
            }
        }
    }
}

proof fn lemma_after_open(
    s0: Seq<Vec<Square>>,
    cols: int,
    rows: int,
    start: (int, int),
    q: (int, int),
    g0: Seq<Vec<Square>>,
    g1: Seq<Vec<Square>>,
    vis0: Seq<Vec<bool>>,
    vis1: Seq<Vec<bool>>,
    qb: Seq<(u32, u32)>,
    popped: Seq<(u32, u32)>,
    q1: Seq<(u32, u32)>,
)
    requires
        0 <= cols <= i32::MAX,
        0 <= rows <= i32::MAX,
        flood_inv(s0, g0, cols, rows, start, vis0, qb),
        qb.len() > 0,
        spot(qb[0]) == q,
        popped.len() == qb.len() - 1,
        forall|i: int| 0 <= i < popped.len() ==> popped[i] == qb[i + 1],
        inside(cols, rows, q),
        at(g0, q) == at(s0, q),
        openable(at(s0, q)),
        spreads_to(s0, cols, rows, start, q),
        forall|x: (int, int)| inside(cols, rows, x) ==> #[trigger] at(g1, x) == if x == q {
            opened(at(s0, q))
        } else {
            at(g0, x)
        },
        at(s0, q).adjacent == 0 ==> neighbours_queued(g1, cols, rows, q, vis0, vis1, popped, q1),
        at(s0, q).adjacent != 0 ==> vis1 == vis0 && q1 == popped,
        vis0.len() == cols,
        forall|x: int| 0 <= x < cols ==> (#[trigger] vis0[x])@.len() == rows,
        unvisited(vis0, rows, cols) >= 0,
    ensures
        flood_inv(s0, g1, cols, rows, start, vis1, q1),
        vis1.len() == cols,
        forall|x: int| 0 <= x < cols ==> (#[trigger] vis1[x])@.len() == rows,
        unvisited(vis1, rows, cols) + q1.len() == unvisited(vis0, rows, cols) + qb.len() - 1,
        unvisited(vis1, rows, cols) <= unvisited(vis0, rows, cols),
        unvisited(vis1, rows, cols) >= 0,
{
    let spread = at(s0, q).adjacent == 0;
    lemma_unvisited_nonneg(vis1, rows, cols);
    assert(queued_ok(s0, g0, cols, rows, start, vis0, qb[0]));
    assert(marked(vis0, q));
    assert forall|m: (int, int)| inside(cols, rows, m) && #[trigger] marked(vis0, m) implies marked(vis1, m) by {}
    assert forall|i: int| 0 <= i < popped.len() implies #[trigger] q1[i] == popped[i] by {}
    // the squares queued now, each next to `q`, without a mine, unmarked before
    assert forall|i: int| popped.len() <= i < q1.len() implies {
        let n = spot(#[trigger] q1[i]);
        &&& spread
        &&& inside(cols, rows, n)
        &&& near(q, n)
        &&& !at(g1, n).mine
        &&& !marked(vis0, n)
        &&& marked(vis1, n)
    } by {}
    // A
    assert forall|x: (int, int)| inside(cols, rows, x) implies #[trigger] at(g1, x) == at(s0, x) || (at(g1, x) == opened(
        at(s0, x),
    ) && spreads_to(s0, cols, rows, start, x)) by {
        assert(at(g0, x) == at(s0, x) || (at(g0, x) == opened(at(s0, x)) && spreads_to(s0, cols, rows, start, x)));
    }
    // B
    assert forall|x: (int, int)| inside(cols, rows, x) && #[trigger] at(g1, x) != at(s0, x) implies marked(vis1, x) by {
        if x != q {
            assert(at(g1, x) == at(g0, x));
            assert(marked(vis0, x));
        }
    }
    // C
    assert forall|i: int| 0 <= i < q1.len() implies queued_ok(s0, g1, cols, rows, start, vis1, #[trigger] q1[i]) by {
        if i < popped.len() {
            assert(q1[i] == qb[i + 1]);
            assert(queued_ok(s0, g0, cols, rows, start, vis0, qb[i + 1]));
            assert(qb[0] != qb[i + 1]);
            assert(spot(q1[i]) != q);
            assert(at(g1, spot(q1[i])) == at(g0, spot(q1[i])));
        } else {
            let n = spot(q1[i]);
            assert(near(q, n));
            assert(at(g1, n) == at(g0, n));
            assert(at(g0, n) == at(s0, n));
            assert(reached(s0, cols, rows, start, n));
        }
    }
    // D
    assert forall|i: int, j: int| 0 <= i < j < q1.len() implies q1[i] != q1[j] by {
        if j < popped.len() {
            assert(qb[i + 1] != qb[j + 1]);
        } else if i < popped.len() {
            assert(queued_ok(s0, g0, cols, rows, start, vis0, qb[i + 1]));
            assert(marked(vis0, spot(q1[i])));
            assert(!marked(vis0, spot(q1[j])));
        }
    }
    // E
    assert forall|m: (int, int)|
        #![trigger marked(vis1, m)]
        inside(cols, rows, m) && marked(vis1, m) && !q1.contains(key(m)) && openable(at(s0, m)) implies at(g1, m) != at(
        s0,
        m,
    ) by {
        if m == q {
            assert(at(g1, m) == opened(at(s0, q)));
        } else if marked(vis0, m) {
            assert(spot(key(m)) == m);
            if qb.contains(key(m)) {
                let i = choose|i: int| 0 <= i < qb.len() && qb[i] == key(m);
                assert(i != 0);
                assert(q1[i - 1] == key(m));
            }
            assert(at(g1, m) == at(g0, m));
        }
    }
    // F
    assert forall|v: (int, int), n: (int, int)|
        #![trigger at(g1, v), near(v, n)]
        inside(cols, rows, v) && at(g1, v) != at(s0, v) && at(s0, v).adjacent == 0 && near(v, n) && inside(cols, rows, n)
            && !at(s0, n).mine implies marked(vis1, n) by {
        if v == q {
            assert(n != q);
            assert(at(g1, n) == at(g0, n));
            assert(at(g0, n) == at(s0, n) || at(g0, n) == opened(at(s0, n)));
            assert(!at(g1, n).mine);
        } else {
            assert(at(g1, v) == at(g0, v));
            assert(marked(vis0, n));
        }
    }
}


// ---------------------------------------------------------------------------
// Clicks, win, loss
// ---------------------------------------------------------------------------

/// The square at `q` after a left click on `start` in the laid out field
/// `g`: nothing changes unless `start` is covered and not flagged; a mine
/// opens alone; any other square opens with all that the spreading
/// reaches.
pub open spec fn clicked_square(g: Seq<Vec<Square>>, cols: int, rows: int, start: (int, int), q: (int, int)) -> Square {
    let s = at(g, q);
    if !openable(at(g, start)) {
        s
    } else if at(g, start).mine {
        if q == start {
            opened(s)
        } else {
            s
        }
    } else if spreads_to(g, cols, rows, start, q) {
        opened(s)
    } else {
        s
    }
}

/// `fin` is the laid out field `g` after a left click on `start`.
pub open spec fn after_click(g: Seq<Vec<Square>>, fin: Seq<Vec<Square>>, cols: int, rows: int, start: (int, int)) -> bool {
    &&& fin.len() == cols
    &&& forall|c: int| 0 <= c < cols ==> (#[trigger] fin[c])@.len() == rows
    &&& forall|c: int, r: int|
        inside(cols, rows, (c, r)) ==> #[trigger] fin[c]@[r] == clicked_square(g, cols, rows, start, (c, r))
}

/// The game is lost when the click opens a mine.
pub open spec fn click_outcome(g: Seq<Vec<Square>>, start: (int, int)) -> Option<GameOver> {
    if openable(at(g, start)) && at(g, start).mine {
        Some(GameOver { won: false })
    } else {
        None
    }
}

/// The mines laid for a first click on `safe`: the first `mine_count` of
/// some ordering of the squares other than `safe`.
pub open spec fn first_click_layout(
    g: Seq<Vec<Square>>,
    mid: Seq<Vec<Square>>,
    cols: int,
    rows: int,
    mine_count: int,
    safe: (u32, u32),
) -> bool {
    exists|order: Seq<(u32, u32)>|
        #![trigger order.to_multiset()]
        order.to_multiset() == candidates(cols, safe, rows).to_multiset() && laid_out(
            g,
            mid,
            cols,
            rows,
            order.take(
                if mine_count < order.len() {
                    mine_count
                } else {
                    order.len() as int
                },
            ),
        )
}

/// Revealed squares without a mine among the first `n` of a column.
pub open spec fn col_revealed_safe(col: Seq<Square>, n: int) -> int
    decreases n,
{
    if n <= 0 {
        0
    } else {
        col_revealed_safe(col, n - 1) + if col[n - 1].revealed && !col[n - 1].mine {
            1int
        } else {
            0
        }
    }
}

/// Revealed squares without a mine in the first `m` columns.
pub open spec fn revealed_safe(g: Seq<Vec<Square>>, rows: int, m: int) -> int
    decreases m,
{
    if m <= 0 {
        0
    } else {
        revealed_safe(g, rows, m - 1) + col_revealed_safe(g[m - 1]@, rows)
    }
}

/// A right click cycles covered, flagged, questioned, covered; a revealed
/// square without marks stays as it is.
pub open spec fn flag_cycled(s: Square) -> Square {
    if s.covered && !s.flagged && !s.questioned && !s.revealed {
        Square { flagged: true, ..s }
    } else if s.flagged {
        Square { flagged: false, questioned: true, ..s }
    } else if s.questioned {
        Square { questioned: false, covered: true, ..s }
    } else {
        s
    }
}

/// The flag counter after a right click on `s`.
pub open spec fn flags_after(s: Square, flags: u32) -> u32 {
    if s.covered && !s.flagged && !s.questioned && !s.revealed {
        flags.saturating_add(1)
    } else if s.flagged {
        flags.saturating_sub(1)
    } else {
        flags
    }
}

/// A square when the game is lost: covered mines are shown, their marks
/// dropped.
pub open spec fn shown_on_loss(s: Square) -> Square {
    if s.mine && s.covered {
        Square { covered: false, flagged: false, questioned: false, revealed: true, ..s }
    } else {
        s
    }
}

proof fn lemma_col_revealed_bound(col: Seq<Square>, n: int)
    requires
        0 <= n,
    ensures
        0 <= col_revealed_safe(col, n) <= n,
    decreases n,
{
    if n > 0 {
        lemma_col_revealed_bound(col, n - 1);
    }
}

impl Field {
    /// A left click on `(ev.col, ev.row)`. The first click lays the mines,
    /// away from the clicked square. Returns the lost game when a mine is
    /// opened.
    pub fn handle_reveal(&mut self, ev: &RevealCell, mine_count: u32) -> (over: Option<GameOver>)
        requires
            old(self).wf(),
            old(self).mines_initialized ==> old(self).counts_ok(),
            ev.col < old(self).cols,
            ev.row < old(self).rows,
        ensures
            final(self).wf(),
            final(self).mines_initialized,
            final(self).counts_ok(),
            final(self).cols == old(self).cols,
            final(self).rows == old(self).rows,
            !old(self).mines_initialized ==> over is None,
            !old(self).mines_initialized ==> field_mines(final(self).squares@, old(self).rows as int, old(self).cols as int)
                == if mine_count < old(self).cols * old(self).rows - 1 {
                mine_count as int
            } else {
                old(self).cols * old(self).rows - 1
            },
            exists|mid: Seq<Vec<Square>>|
                #![trigger after_click(mid, final(self).squares@, old(self).cols as int, old(self).rows as int, (ev.col as int, ev.row as int))]
                {
                    &&& old(self).mines_initialized ==> mid == old(self).squares@
                    &&& !old(self).mines_initialized ==> first_click_layout(
                        old(self).squares@,
                        mid,
                        old(self).cols as int,
                        old(self).rows as int,
                        mine_count as int,
                        (ev.col, ev.row),
                    )
                    &&& after_click(
                        mid,
                        final(self).squares@,
                        old(self).cols as int,
                        old(self).rows as int,
                        (ev.col as int, ev.row as int),
                    )
                    &&& over == click_outcome(mid, (ev.col as int, ev.row as int))
                },
    {
        let ghost cols = self.cols as int;
        let ghost rows = self.rows as int;
        let ghost start = (ev.col as int, ev.row as int);
        if !self.mines_initialized {
            self.initialize_mines(mine_count, (ev.col, ev.row));
        }
        let ghost mid = self.squares@;
        proof {
            assert(self.counts_ok());
            if !old(self).mines_initialized {
                assert forall|q: (int, int)| inside(cols, rows, q) implies !(#[trigger] at(old(self).squares@, q)).mine by {
                    assert(!old(self).squares@[q.0]@[q.1].mine);
                }
                first_click_is_safe(old(self).squares@, mid, cols, rows, mine_count as int, (ev.col, ev.row));
                first_click_lays_all_mines(old(self).squares@, mid, cols, rows, mine_count as int, (ev.col, ev.row));
            }
        }
        let s = self.squares[ev.col as usize][ev.row as usize];
        let over = if !(s.covered && !s.flagged) {
            None
        } else if s.mine {
            self.put(ev.col, ev.row, Square { covered: false, revealed: true, ..s });
            Some(GameOver { won: false })
        } else {
            self.flood_open(ev.col, ev.row);
            None
        };
        proof {
            let fin = self.squares@;
            assert forall|c: int, r: int| inside(cols, rows, (c, r)) implies #[trigger] fin[c]@[r] == clicked_square(
                mid,
                cols,
                rows,
                start,
                (c, r),
            ) by {
                assert(at(mid, start) == s);
            }
            assert(after_click(mid, fin, cols, rows, start));
            assert forall|q: (int, int)| inside(cols, rows, q) implies (#[trigger] at(fin, q)).mine == at(mid, q).mine by {
                assert(fin[q.0]@[q.1] == clicked_square(mid, cols, rows, start, q));
            }
            assert forall|c: int, r: int| inside(cols, rows, (c, r)) implies (#[trigger] fin[c]@[r]).mine == mid[c]@[r].mine by {
                assert(fin[c]@[r] == clicked_square(mid, cols, rows, start, (c, r)));
            }
            lemma_field_mines_same(fin, mid, cols, rows, cols);
            assert forall|c: int, r: int| inside(cols, rows, (c, r)) implies (#[trigger] fin[c]@[r]).adjacent
                == mines_around(fin, cols, rows, (c, r), 9) by {
                assert(fin[c]@[r] == clicked_square(mid, cols, rows, start, (c, r)));
                assert(mid[c]@[r].adjacent == mines_around(mid, cols, rows, (c, r), 9));
                lemma_mines_around_same(fin, mid, cols, rows, (c, r), 9);
            }
        }
        over
    }

    /// A right click on `(ev.col, ev.row)`: covered becomes flagged (one
    /// more flag), flagged becomes questioned (one flag less), questioned
    /// becomes covered again.
    pub fn handle_flag(&mut self, ev: &FlagCell, flags: &mut FlagCount)
        requires
            old(self).wf(),
            ev.col < old(self).cols,
            ev.row < old(self).rows,
        ensures
            final(self).wf(),
            final(self).cols == old(self).cols,
            final(self).rows == old(self).rows,
            final(self).mines_initialized == old(self).mines_initialized,
            final(flags).0 == flags_after(old(self).sq(ev.col as int, ev.row as int), old(flags).0),
            forall|c: int, r: int|
                inside(old(self).cols as int, old(self).rows as int, (c, r)) ==> #[trigger] final(self).squares@[c]@[r]
                    == if c == ev.col && r == ev.row {
                    flag_cycled(old(self).squares@[c]@[r])
                } else {
                    old(self).squares@[c]@[r]
                },
    {
        let s = self.squares[ev.col as usize][ev.row as usize];
        if s.covered && !s.flagged && !s.questioned && !s.revealed {
            self.put(ev.col, ev.row, Square { flagged: true, ..s });
            flags.0 = flags.0.saturating_add(1);
        } else if s.flagged {
            self.put(ev.col, ev.row, Square { flagged: false, questioned: true, ..s });
            flags.0 = flags.0.saturating_sub(1);
        } else if s.questioned {
            self.put(ev.col, ev.row, Square { questioned: false, covered: true, ..s });
        }
    }

    /// The game is won once every square without a mine is revealed.
    pub fn check_win(&self, mine_count: u32) -> (over: Option<GameOver>)
        requires
            self.wf(),
            self.cols * self.rows <= u32::MAX,
            mine_count <= self.cols * self.rows,
        ensures
            over == if revealed_safe(self.squares@, self.rows as int, self.cols as int) == self.cols * self.rows
                - mine_count {
                Some(GameOver { won: true })
            } else {
                None
            },
    {
        let safe_total = self.cols * self.rows - mine_count;
        let mut count: u64 = 0;
        let mut c: usize = 0;
        while c < self.squares.len()
            invariant
                self.wf(),
                c <= self.cols,
                count == revealed_safe(self.squares@, self.rows as int, c as int),
                count <= c * self.rows,
                self.cols * self.rows <= u32::MAX,
            decreases self.cols - c,
        {
            let column = &self.squares[c];
            let mut r: usize = 0;
            while r < column.len()
                invariant
                    self.wf(),
                    c < self.cols,
                    column@ == self.squares@[c as int]@,
                    column@.len() == self.rows,
                    r <= self.rows,
                    count == revealed_safe(self.squares@, self.rows as int, c as int) + col_revealed_safe(column@, r as int),
                    count <= c * self.rows + r,
                    self.cols * self.rows <= u32::MAX,
                decreases self.rows - r,
            {
                proof {
                    assert(c * self.rows + r < self.cols * self.rows) by (nonlinear_arith)
                        requires
                            c < self.cols,
                            r < self.rows,
                    ;
                }
                if column[r].revealed && !column[r].mine {
                    count += 1;
                }
                r += 1;
            }
            proof {
                assert(c * self.rows + self.rows == (c + 1) * self.rows) by (nonlinear_arith);
            }
            c += 1;
        }
        if count == safe_total as u64 {
            Some(GameOver { won: true })
        } else {
            None
        }
    }

    /// The game is over: a lost game shows every covered mine. Returns the
    /// state the game moves to.
    pub fn handle_game_over_board(&mut self, ev: GameOver) -> (next: GameState)
        requires
            old(self).wf(),
        ensures
            final(self).wf(),
            final(self).cols == old(self).cols,
            final(self).rows == old(self).rows,
            final(self).mines_initialized == old(self).mines_initialized,
            next == if ev.won {
                GameState::Won
            } else {
                GameState::Lost
            },
            forall|c: int, r: int|
                inside(old(self).cols as int, old(self).rows as int, (c, r)) ==> #[trigger] final(self).squares@[c]@[r]
                    == if ev.won {
                    old(self).squares@[c]@[r]
                } else {
                    shown_on_loss(old(self).squares@[c]@[r])
                },
    {
        if !ev.won {
            let mut c: u32 = 0;
            while c < self.cols
                invariant
                    c <= self.cols,
                    self.wf(),
                    self.cols == old(self).cols,
                    self.rows == old(self).rows,
                    self.mines_initialized == old(self).mines_initialized,
                    forall|x: int, y: int|
                        inside(self.cols as int, self.rows as int, (x, y)) ==> #[trigger] self.squares@[x]@[y] == if x < c {
                            shown_on_loss(old(self).squares@[x]@[y])
                        } else {
                            old(self).squares@[x]@[y]
                        },
                decreases self.cols - c,
            {
                let mut r: u32 = 0;
                while r < self.rows
                    invariant
                        c < self.cols,
                        r <= self.rows,
                        self.wf(),
                        self.cols == old(self).cols,
                        self.rows == old(self).rows,
                        self.mines_initialized == old(self).mines_initialized,
                        forall|x: int, y: int|
                            inside(self.cols as int, self.rows as int, (x, y)) ==> #[trigger] self.squares@[x]@[y] == if x
                                < c || (x == c && y < r) {
                                shown_on_loss(old(self).squares@[x]@[y])
                            } else {
                                old(self).squares@[x]@[y]
                            },
                    decreases self.rows - r,
                {
                    let s = self.squares[c as usize][r as usize];
                    if s.mine && s.covered {
                        self.put(c, r, Square { covered: false, flagged: false, questioned: false, revealed: true, ..s });
                    }
                    r += 1;
                }
                c += 1;
            }
            GameState::Lost
        } else {
            GameState::Won
        }
    }
}

/// A new game: the flag counter goes back to zero and the game to setup.
pub fn process_restart(flags: &mut FlagCount) -> (next: GameState)
    ensures
        final(flags).0 == 0,
        next == GameState::Setup,
{
    flags.0 = 0;
    GameState::Setup
}


// ---------------------------------------------------------------------------
// How a square looks
// ---------------------------------------------------------------------------

/// The colour a square is painted with.
#[derive(Clone, Copy, PartialEq, Eq, Structural, Debug)]
pub enum Tint {
    Covered,
    Revealed,
    Flagged,
    Mine,
}

/// What is written on a square.
#[derive(Clone, Copy, PartialEq, Eq, Structural, Debug)]
pub enum Label {
    Blank,
    Number(u8),
    MineIcon,
    FlagIcon,
    QuestionIcon,
}

/// A flag shows first, then a question mark; a revealed square shows a
/// mine or the revealed colour; anything else looks covered.
pub fn square_tint(s: &Square) -> (t: Tint)
    ensures
        t == if s.flagged {
            Tint::Flagged
        } else if s.questioned {
            Tint::Covered
        } else if s.revealed {
            if s.mine {
                Tint::Mine
            } else {
                Tint::Revealed
            }
        } else {
            Tint::Covered
        },
{
    if s.flagged {
        Tint::Flagged
    } else if s.questioned {
        Tint::Covered
    } else if s.revealed {
        if s.mine {
            Tint::Mine
        } else {
            Tint::Revealed
        }
    } else {
        Tint::Covered
    }
}

/// A revealed square shows its count (when not zero) or its mine; a
/// covered one its flag or question mark.
pub fn square_label(s: &Square) -> (l: Label)
    ensures
        l == if s.revealed && !s.mine && s.adjacent > 0 {
            Label::Number(s.adjacent)
        } else if s.revealed && s.mine {
            Label::MineIcon
        } else if s.flagged {
            Label::FlagIcon
        } else if s.questioned {
            Label::QuestionIcon
        } else {
            Label::Blank
        },
{
    if s.revealed && !s.mine && s.adjacent > 0 {
        Label::Number(s.adjacent)
    } else if s.revealed && s.mine {
        Label::MineIcon
    } else if s.flagged {
        Label::FlagIcon
    } else if s.questioned {
        Label::QuestionIcon
    } else {
        Label::Blank
    }
}

/// Which of the eight number colours a count is written in.
pub fn number_colour_index(count: u8) -> (i: usize)
    requires
        count > 0,
    ensures
        i == if count - 1 < 7 {
            count - 1
        } else {
            7
        },
{
    let i = (count - 1) as usize;
    if i < 7 {
        i
    } else {
        7
    }
}


// ---------------------------------------------------------------------------
// Laws
// ---------------------------------------------------------------------------

proof fn lemma_row_candidates_skip(safe: (u32, u32), r: int, c: int)
    ensures
        !row_candidates(safe, r, c).contains(safe),
    decreases c,
{
    if c > 0 {
        let q = ((c - 1) as u32, r as u32);
        let prev = row_candidates(safe, r, c - 1);
        let last: Seq<(u32, u32)> = if q == safe {
            Seq::empty()
        } else {
            seq![q]
        };
        lemma_row_candidates_skip(safe, r, c - 1);
        if (prev + last).contains(safe) {
            let i = choose|i: int| 0 <= i < (prev + last).len() && (prev + last)[i] == safe;
            if i < prev.len() {
                assert(prev[i] == safe);
            } else {
                assert(last[i - prev.len()] == safe);
            }
        }
    }
}

proof fn lemma_candidates_skip(cols: int, safe: (u32, u32), r: int)
    ensures
        !candidates(cols, safe, r).contains(safe),
    decreases r,
{
    if r > 0 {
        let prev = candidates(cols, safe, r - 1);
        let row = row_candidates(safe, r - 1, cols);
        lemma_candidates_skip(cols, safe, r - 1);
        lemma_row_candidates_skip(safe, r - 1, cols);
        if (prev + row).contains(safe) {
            let i = choose|i: int| 0 <= i < (prev + row).len() && (prev + row)[i] == safe;
            if i < prev.len() {
                assert(prev[i] == safe);
            } else {
                assert(row[i - prev.len()] == safe);
            }
        }
    }
}

/// The first click never loses: on a field without mines, the layout made
/// for a first click on `safe` leaves `safe` free, so that click opens no
/// mine.
pub proof fn first_click_is_safe(
    g: Seq<Vec<Square>>,
    mid: Seq<Vec<Square>>,
    cols: int,
    rows: int,
    mine_count: int,
    safe: (u32, u32),
)
    requires
        inside(cols, rows, spot(safe)),
        0 <= mine_count,
        forall|q: (int, int)| inside(cols, rows, q) ==> !(#[trigger] at(g, q)).mine,
        first_click_layout(g, mid, cols, rows, mine_count, safe),
    ensures
        !at(mid, spot(safe)).mine,
        click_outcome(mid, spot(safe)) is None,
{
    let order = choose|order: Seq<(u32, u32)>|
        #![trigger order.to_multiset()]
        order.to_multiset() == candidates(cols, safe, rows).to_multiset() && laid_out(
            g,
            mid,
            cols,
            rows,
            order.take(
                if mine_count < order.len() {
                    mine_count
                } else {
                    order.len() as int
                },
            ),
        );
    let n = if mine_count < order.len() {
        mine_count
    } else {
        order.len() as int
    };
    let cands = candidates(cols, safe, rows);
    lemma_candidates_skip(cols, safe, rows);
    order.to_multiset_ensures();
    cands.to_multiset_ensures();
    if order.take(n).contains(safe) {
        let i = choose|i: int| 0 <= i < order.take(n).len() && order.take(n)[i] == safe;
        assert(order[i] == safe);
        assert(order.contains(safe));
        assert(cands.to_multiset().count(safe) > 0);
    }
    let (c, r) = spot(safe);
    assert(mid[c]@[r].mine == (g[c]@[r].mine || order.take(n).contains((c as u32, r as u32))));
    assert(at(g, spot(safe)) == g[c]@[r]);
}

/// Three right clicks bring a plain covered square back to itself, and the
/// flag counter back to where it was (unless it was saturated).
pub proof fn three_right_clicks_restore(s: Square, flags: u32)
    requires
        s.covered,
        !s.flagged,
        !s.questioned,
        !s.revealed,
    ensures
        flag_cycled(flag_cycled(flag_cycled(s))) == s,
        flags < u32::MAX ==> flags_after(
            flag_cycled(flag_cycled(s)),
            flags_after(flag_cycled(s), flags_after(s, flags)),
        ) == flags,
{
}


// ---------------------------------------------------------------------------
// How many mines the first click lays
// ---------------------------------------------------------------------------

/// Mines among the first `n` squares of a column.
pub open spec fn col_mines(col: Seq<Square>, n: int) -> int
    decreases n,
{
    if n <= 0 {
        0
    } else {
        col_mines(col, n - 1) + if col[n - 1].mine {
            1int
        } else {
            0
        }
    }
}

/// Mines in the first `m` columns.
pub open spec fn field_mines(g: Seq<Vec<Square>>, rows: int, m: int) -> int
    decreases m,
{
    if m <= 0 {
        0
    } else {
        field_mines(g, rows, m - 1) + col_mines(g[m - 1]@, rows)
    }
}

/// Positions of column `c` among its first `n` rows that `chosen` lists.
pub open spec fn col_listed(chosen: Seq<(u32, u32)>, c: int, n: int) -> int
    decreases n,
{
    if n <= 0 {
        0
    } else {
        col_listed(chosen, c, n - 1) + if chosen.contains((c as u32, (n - 1) as u32)) {
            1int
        } else {
            0
        }
    }
}

/// Positions of the first `m` columns that `chosen` lists.
pub open spec fn field_listed(chosen: Seq<(u32, u32)>, rows: int, m: int) -> int
    decreases m,
{
    if m <= 0 {
        0
    } else {
        field_listed(chosen, rows, m - 1) + col_listed(chosen, m - 1, rows)
    }
}

proof fn lemma_col_mines_listed(col: Seq<Square>, chosen: Seq<(u32, u32)>, c: int, n: int)
    requires
        0 <= c <= u32::MAX,
        n <= u32::MAX + 1,
        forall|r: int| 0 <= r < n ==> (#[trigger] col[r]).mine == chosen.contains((c as u32, r as u32)),
    ensures
        col_mines(col, n) == col_listed(chosen, c, n),
    decreases n,
{
    if n > 0 {
        lemma_col_mines_listed(col, chosen, c, n - 1);
        assert(col[n - 1].mine == chosen.contains((c as u32, (n - 1) as u32)));
    }
}

proof fn lemma_field_mines_listed(g: Seq<Vec<Square>>, chosen: Seq<(u32, u32)>, cols: int, rows: int, m: int)
    requires
        0 <= m <= cols <= u32::MAX,
        0 <= rows <= u32::MAX,
        forall|c: int, r: int|
            inside(cols, rows, (c, r)) ==> (#[trigger] g[c]@[r]).mine == chosen.contains((c as u32, r as u32)),
    ensures
        field_mines(g, rows, m) == field_listed(chosen, rows, m),
    decreases m,
{
    if m > 0 {
        lemma_field_mines_listed(g, chosen, cols, rows, m - 1);
        assert forall|r: int| 0 <= r < rows implies (#[trigger] g[m - 1]@[r]).mine == chosen.contains(
            ((m - 1) as u32, r as u32),
        ) by {
            assert(inside(cols, rows, (m - 1, r)));
        }
        lemma_col_mines_listed(g[m - 1]@, chosen, m - 1, rows);
    }
}

proof fn lemma_col_listed_add(a: Seq<(u32, u32)>, b: Seq<(u32, u32)>, x: (u32, u32), c: int, n: int)
    requires
        forall|k: (u32, u32)| #[trigger] b.contains(k) == (a.contains(k) || k == x),
        !a.contains(x),
        0 <= c <= u32::MAX,
        n <= u32::MAX + 1,
    ensures
        col_listed(b, c, n) == col_listed(a, c, n) + if x.0 == c && 0 <= x.1 < n {
            1int
        } else {
            0
        },
    decreases n,
{
    if n > 0 {
        lemma_col_listed_add(a, b, x, c, n - 1);
        let k = (c as u32, (n - 1) as u32);
        assert(b.contains(k) == (a.contains(k) || k == x));
    }
}

proof fn lemma_field_listed_add(a: Seq<(u32, u32)>, b: Seq<(u32, u32)>, x: (u32, u32), rows: int, m: int)
    requires
        forall|k: (u32, u32)| #[trigger] b.contains(k) == (a.contains(k) || k == x),
        !a.contains(x),
        0 <= rows <= u32::MAX,
        m <= u32::MAX + 1,
    ensures
        field_listed(b, rows, m) == field_listed(a, rows, m) + if 0 <= x.0 < m && x.1 < rows {
            1int
        } else {
            0
        },
    decreases m,
{
    if m > 0 {
        lemma_field_listed_add(a, b, x, rows, m - 1);
        lemma_col_listed_add(a, b, x, m - 1, rows);
    }
}

proof fn lemma_field_listed_empty(a: Seq<(u32, u32)>, rows: int, m: int)
    requires
        a.len() == 0,
    ensures
        field_listed(a, rows, m) == 0,
    decreases m,
{
    if m > 0 {
        lemma_field_listed_empty(a, rows, m - 1);
        lemma_col_listed_empty(a, m - 1, rows);
    }
}

proof fn lemma_col_listed_empty(a: Seq<(u32, u32)>, c: int, n: int)
    requires
        a.len() == 0,
    ensures
        col_listed(a, c, n) == 0,
    decreases n,
{
    if n > 0 {
        lemma_col_listed_empty(a, c, n - 1);
    }
}

/// A list of distinct positions inside the field lists as many positions
/// as its length.
proof fn lemma_field_listed_len(chosen: Seq<(u32, u32)>, cols: int, rows: int)
    requires
        0 <= cols <= u32::MAX,
        0 <= rows <= u32::MAX,
        chosen.no_duplicates(),
        forall|k: int| 0 <= k < chosen.len() ==> (#[trigger] chosen[k]).0 < cols && chosen[k].1 < rows,
    ensures
        field_listed(chosen, rows, cols) == chosen.len(),
    decreases chosen.len(),
{
    if chosen.len() == 0 {
        lemma_field_listed_empty(chosen, rows, cols);
    } else {
        let a = chosen.drop_last();
        let x = chosen.last();
        assert forall|k: (u32, u32)| #[trigger] chosen.contains(k) == (a.contains(k) || k == x) by {
            if chosen.contains(k) {
                let i = choose|i: int| 0 <= i < chosen.len() && chosen[i] == k;
                if i < a.len() {
                    assert(a[i] == k);
                }
            }
            if a.contains(k) {
                let i = choose|i: int| 0 <= i < a.len() && a[i] == k;
                assert(chosen[i] == k);
            }
            if k == x {
                assert(chosen[chosen.len() - 1] == k);
            }
        }
        if a.contains(x) {
            let i = choose|i: int| 0 <= i < a.len() && a[i] == x;
            assert(chosen[i] == chosen[chosen.len() - 1]);
        }
        assert(a.no_duplicates());
        assert forall|k: int| 0 <= k < a.len() implies (#[trigger] a[k]).0 < cols && a[k].1 < rows by {
            assert(a[k] == chosen[k]);
        }
        lemma_field_listed_len(a, cols, rows);
        lemma_field_listed_add(a, chosen, x, rows, cols);
        assert(chosen[chosen.len() - 1] == x);
    }
}

proof fn lemma_row_candidates_facts(safe: (u32, u32), r: int, c: int)
    requires
        0 <= r <= u32::MAX,
        0 <= c <= u32::MAX + 1,
    ensures
        row_candidates(safe, r, c).no_duplicates(),
        row_candidates(safe, r, c).len() == c - if safe.1 == r && safe.0 < c {
            1int
        } else {
            0
        },
        forall|k: int|
            0 <= k < row_candidates(safe, r, c).len() ==> (#[trigger] row_candidates(safe, r, c)[k]).1 == r
                && row_candidates(safe, r, c)[k].0 < c,
    decreases c,
{
    if c > 0 {
        lemma_row_candidates_facts(safe, r, c - 1);
        let q = ((c - 1) as u32, r as u32);
        let prev = row_candidates(safe, r, c - 1);
        let last: Seq<(u32, u32)> = if q == safe {
            Seq::empty()
        } else {
            seq![q]
        };
        let all = prev + last;
        assert(row_candidates(safe, r, c) == all);
        assert forall|k: int| 0 <= k < all.len() implies (#[trigger] all[k]).1 == r && all[k].0 < c by {
            if k < prev.len() {
                assert(all[k] == prev[k]);
            } else {
                assert(all[k] == q);
            }
        }
        assert forall|i: int, j: int| 0 <= i < all.len() && 0 <= j < all.len() && i != j implies all[i] != all[j] by {
            if i < prev.len() && j < prev.len() {
                assert(all[i] == prev[i] && all[j] == prev[j]);
            } else if i < prev.len() {
                assert(all[i] == prev[i] && all[j] == q);
            } else if j < prev.len() {
                assert(all[j] == prev[j] && all[i] == q);
            }
        }
        if q == safe {
            assert(safe.1 == r && safe.0 == c - 1);
        }
    }
}

proof fn lemma_candidates_facts(cols: int, safe: (u32, u32), r: int)
    requires
        0 <= cols <= u32::MAX,
        0 <= r <= u32::MAX + 1,
        safe.0 < cols,
    ensures
        candidates(cols, safe, r).no_duplicates(),
        candidates(cols, safe, r).len() == r * cols - if safe.1 < r {
            1int
        } else {
            0
        },
    decreases r,
{
    if r > 0 {
        lemma_candidates_facts(cols, safe, r - 1);
        lemma_row_candidates_facts(safe, r - 1, cols);
        let prev = candidates(cols, safe, r - 1);
        let row = row_candidates(safe, r - 1, cols);
        let all = prev + row;
        assert(candidates(cols, safe, r) == all);
        assert forall|i: int, j: int| 0 <= i < all.len() && 0 <= j < all.len() && i != j implies all[i] != all[j] by {
            if i < prev.len() && j < prev.len() {
                assert(all[i] == prev[i] && all[j] == prev[j]);
            } else if i >= prev.len() && j >= prev.len() {
                assert(all[i] == row[i - prev.len()] && all[j] == row[j - prev.len()]);
            } else if i < prev.len() {
                assert(all[i] == prev[i] && all[j] == row[j - prev.len()]);
                assert(prev.contains(prev[i]));
                lemma_candidates_inside(cols, safe, r - 1, prev[i]);
            } else {
                assert(all[j] == prev[j] && all[i] == row[i - prev.len()]);
                assert(prev.contains(prev[j]));
                lemma_candidates_inside(cols, safe, r - 1, prev[j]);
            }
        }
        assert(r * cols == (r - 1) * cols + cols) by (nonlinear_arith);
    }
}

proof fn lemma_col_mines_same(a: Seq<Square>, b: Seq<Square>, n: int)
    requires
        forall|r: int| 0 <= r < n ==> (#[trigger] a[r]).mine == b[r].mine,
    ensures
        col_mines(a, n) == col_mines(b, n),
    decreases n,
{
    if n > 0 {
        lemma_col_mines_same(a, b, n - 1);
        assert(a[n - 1].mine == b[n - 1].mine);
    }
}

proof fn lemma_field_mines_same(a: Seq<Vec<Square>>, b: Seq<Vec<Square>>, cols: int, rows: int, m: int)
    requires
        0 <= m <= cols,
        forall|c: int, r: int| inside(cols, rows, (c, r)) ==> (#[trigger] a[c]@[r]).mine == b[c]@[r].mine,
    ensures
        field_mines(a, rows, m) == field_mines(b, rows, m),
    decreases m,
{
    if m > 0 {
        lemma_field_mines_same(a, b, cols, rows, m - 1);
        assert forall|r: int| 0 <= r < rows implies (#[trigger] a[m - 1]@[r]).mine == b[m - 1]@[r].mine by {
            assert(inside(cols, rows, (m - 1, r)));
        }
        lemma_col_mines_same(a[m - 1]@, b[m - 1]@, rows);
    }
}

/// The first click lays as many mines as asked for, or a mine on every
/// other square when there are not that many: the win check counts on it.
pub proof fn first_click_lays_all_mines(
    g: Seq<Vec<Square>>,
    mid: Seq<Vec<Square>>,
    cols: int,
    rows: int,
    mine_count: int,
    safe: (u32, u32),
)
    requires
        0 <= cols <= i32::MAX,
        0 <= rows <= i32::MAX,
        inside(cols, rows, spot(safe)),
        0 <= mine_count,
        forall|q: (int, int)| inside(cols, rows, q) ==> !(#[trigger] at(g, q)).mine,
        first_click_layout(g, mid, cols, rows, mine_count, safe),
    ensures
        field_mines(mid, rows, cols) == if mine_count < cols * rows - 1 {
            mine_count
        } else {
            cols * rows - 1
        },
{
    let order = choose|order: Seq<(u32, u32)>|
        #![trigger order.to_multiset()]
        order.to_multiset() == candidates(cols, safe, rows).to_multiset() && laid_out(
            g,
            mid,
            cols,
            rows,
            order.take(
                if mine_count < order.len() {
                    mine_count
                } else {
                    order.len() as int
                },
            ),
        );
    let n = if mine_count < order.len() {
        mine_count
    } else {
        order.len() as int
    };
    let chosen = order.take(n);
    let cands = candidates(cols, safe, rows);
    lemma_candidates_facts(cols, safe, rows);
    cands.lemma_multiset_has_no_duplicates();
    order.to_multiset_ensures();
    cands.to_multiset_ensures();
    order.lemma_multiset_has_no_duplicates_conv();
    assert(order.len() == cands.len());
    assert(chosen.no_duplicates()) by {
        assert forall|i: int, j: int| 0 <= i < chosen.len() && 0 <= j < chosen.len() && i != j implies chosen[i]
            != chosen[j] by {
            assert(chosen[i] == order[i] && chosen[j] == order[j]);
        }
    }
    assert forall|k: int| 0 <= k < chosen.len() implies (#[trigger] chosen[k]).0 < cols && chosen[k].1 < rows by {
        assert(chosen[k] == order[k]);
        assert(order.to_multiset().count(order[k]) > 0);
        assert(cands.contains(order[k]));
        lemma_candidates_inside(cols, safe, rows, order[k]);
    }
    assert forall|c: int, r: int| inside(cols, rows, (c, r)) implies (#[trigger] mid[c]@[r]).mine == chosen.contains(
        (c as u32, r as u32),
    ) by {
        assert(!at(g, (c, r)).mine);
    }
    lemma_field_mines_listed(mid, chosen, cols, rows, cols);
    lemma_field_listed_len(chosen, cols, rows);
    assert(rows * cols == cols * rows) by (nonlinear_arith);
}

} // verus!
