//! 2048 game state for the event-driven front end: a grid of optional tiles,
//! moves in four directions with movement records, random spawns and the
//! game-over test.

use vstd::prelude::*;

use crate::game2048::board::{groups, lemma_groups_len};
use crate::random::{chance, index_below};

verus! {

/// `(from_row, from_col, to_row, to_col, value)` of a tile that only moved.
pub type MoveTile = (usize, usize, usize, usize, u32);

/// `(src1_row, src1_col, src2_row, src2_col, to_row, to_col, new_value)` of
/// two tiles that merged.
pub type MergedTile = (usize, usize, usize, usize, usize, usize, u32);

/// Direction of a move.
#[derive(Clone, Copy, PartialEq, Eq, Structural, Debug)]
pub enum Direction {
    Up,
    Down,
    Left,
    Right,
}

/// What a key press asks for.
#[derive(Clone, Copy, PartialEq, Eq, Structural, Debug)]
pub enum InputAction {
    Restart,
    Move(Direction),
}

/// The keys of a frame: R restarts at any time; an arrow moves, unless the
/// game is over or tiles are still moving.
pub fn handle_input(restart_pressed: bool, game_over: bool, animating: bool, arrow: Option<Direction>) -> (a: Option<
    InputAction,
>)
    ensures
        a == if restart_pressed {
            Some(InputAction::Restart)
        } else if game_over || animating {
            None
        } else {
            match arrow {
                Some(d) => Some(InputAction::Move(d)),
                None => None,
            }
        },
{
    if restart_pressed {
        return Some(InputAction::Restart);
    }
    if game_over || animating {
        return None;
    }
    match arrow {
        Some(d) => Some(InputAction::Move(d)),
        None => None,
    }
}

/// What a move did, for the animation.
pub struct MoveResult {
    pub moved: Vec<MoveTile>,
    pub merged: Vec<MergedTile>,
    /// `(row, col, value)` of the tile spawned after the move.
    pub spawned: Vec<(usize, usize, u32)>,
}

impl MoveResult {
    pub fn new() -> (r: MoveResult)
        ensures
            r.moved@.len() == 0,
            r.merged@.len() == 0,
            r.spawned@.len() == 0,
    {
        MoveResult { moved: Vec::new(), merged: Vec::new(), spawned: Vec::new() }
    }
}

/// The game: a 4x4 grid (`None` = empty cell), the score and the flags the
/// front end reads.
pub struct GameState {
    pub grid: [[Option<u32>; 4]; 4],
    pub score: u32,
    pub game_over: bool,
    pub needs_sync: bool,
    pub last_move: Option<MoveResult>,
}

// ---------------------------------------------------------------------------
// Model of one line
// ---------------------------------------------------------------------------

/// Position in the line of the `k`-th cell visited.
pub open spec fn order_index(reverse: bool, k: int) -> int {
    if reverse {
        3 - k
    } else {
        k
    }
}

/// Tiles of the first `n` cells in visiting order, with their grid positions.
pub open spec fn line_tiles_upto(
    line: Seq<Option<u32>>,
    pos: Seq<(usize, usize)>,
    reverse: bool,
    n: int,
) -> Seq<(u32, (usize, usize))>
    decreases n,
{
    if n <= 0 {
        seq![]
    } else {
        let rest = line_tiles_upto(line, pos, reverse, n - 1);
        let i = order_index(reverse, n - 1);
        match line[i] {
            Some(v) => rest.push((v, pos[i])),
            None => rest,
        }
    }
}

pub open spec fn line_groups(line: Seq<Option<u32>>, pos: Seq<(usize, usize)>, reverse: bool) -> Seq<
    (u32, (usize, usize), Option<(usize, usize)>),
> {
    groups(line_tiles_upto(line, pos, reverse, 4))
}

pub open spec fn merged_value(g: (u32, (usize, usize), Option<(usize, usize)>)) -> int {
    if g.2 is Some {
        2 * g.0
    } else {
        g.0 as int
    }
}

/// The line after the move: group `j` lands on the `j`-th cell visited.
pub open spec fn line_result(line: Seq<Option<u32>>, pos: Seq<(usize, usize)>, reverse: bool) -> Seq<
    Option<u32>,
> {
    let g = line_groups(line, pos, reverse);
    Seq::new(
        4,
        |i: int|
            {
                let j = order_index(reverse, i);
                if j < g.len() {
                    Some(merged_value(g[j]) as u32)
                } else {
                    None
                }
            },
    )
}

/// Records of the tiles of the first `n` groups that moved without merging.
pub open spec fn line_moves(
    g: Seq<(u32, (usize, usize), Option<(usize, usize)>)>,
    pos: Seq<(usize, usize)>,
    reverse: bool,
    n: int,
) -> Seq<MoveTile>
    decreases n,
{
    if n <= 0 {
        seq![]
    } else {
        let to = pos[order_index(reverse, n - 1)];
        let from = g[n - 1].1;
        line_moves(g, pos, reverse, n - 1) + if g[n - 1].2 is None && from != to {
            seq![(from.0, from.1, to.0, to.1, g[n - 1].0)]
        } else {
            seq![]
        }
    }
}

/// Records of the merges among the first `n` groups.
pub open spec fn line_merges(
    g: Seq<(u32, (usize, usize), Option<(usize, usize)>)>,
    pos: Seq<(usize, usize)>,
    reverse: bool,
    n: int,
) -> Seq<MergedTile>
    decreases n,
{
    if n <= 0 {
        seq![]
    } else {
        let to = pos[order_index(reverse, n - 1)];
        let from = g[n - 1].1;
        line_merges(g, pos, reverse, n - 1) + match g[n - 1].2 {
            Some(p2) => seq![(from.0, from.1, p2.0, p2.1, to.0, to.1, merged_value(g[n - 1]) as u32)],
            None => seq![],
        }
    }
}

/// Score gained by the first `n` groups.
pub open spec fn line_gain(g: Seq<(u32, (usize, usize), Option<(usize, usize)>)>, n: int) -> int
    decreases n,
{
    if n <= 0 {
        0
    } else {
        line_gain(g, n - 1) + if g[n - 1].2 is Some {
            merged_value(g[n - 1])
        } else {
            0
        }
    }
}

/// No merged value and no gain of the line overflows `u32`.
pub open spec fn line_fits(line: Seq<Option<u32>>, pos: Seq<(usize, usize)>, reverse: bool) -> bool {
    let g = line_groups(line, pos, reverse);
    &&& forall|j: int| 0 <= j < g.len() ==> merged_value(#[trigger] g[j]) <= u32::MAX
    &&& line_gain(g, g.len() as int) <= u32::MAX
}

proof fn lemma_line_tiles_len(line: Seq<Option<u32>>, pos: Seq<(usize, usize)>, reverse: bool, n: int)
    requires
        0 <= n,
    ensures
        line_tiles_upto(line, pos, reverse, n).len() <= n,
    decreases n,
{
    if n > 0 {
        lemma_line_tiles_len(line, pos, reverse, n - 1);
    }
}

proof fn lemma_line_gain_monotone(g: Seq<(u32, (usize, usize), Option<(usize, usize)>)>, m: int, n: int)
    requires
        0 <= m <= n,
    ensures
        0 <= line_gain(g, m) <= line_gain(g, n),
    decreases n,
{
    if n > m {
        lemma_line_gain_monotone(g, m, n - 1);
    } else {
        lemma_line_gain_nonneg(g, m);
    }
}

proof fn lemma_line_gain_nonneg(g: Seq<(u32, (usize, usize), Option<(usize, usize)>)>, n: int)
    ensures
        line_gain(g, n) >= 0,
    decreases n,
{
    if n > 0 {
        lemma_line_gain_nonneg(g, n - 1);
    }
}

/// Moves one line towards its start (the end when `reverse`), merging equal
/// neighbours once. Returns the new line, the tiles that only moved, the
/// merges, whether the line changed and the score gained.
#[verifier::rlimit(40)]
pub fn process_line_left(
    line: &[Option<u32>; 4],
    start_positions: &[(usize, usize); 4],
    reverse: bool,
) -> (r: ([Option<u32>; 4], Vec<MoveTile>, Vec<MergedTile>, bool, u32))
    requires
        line_fits(line@, start_positions@, reverse),
    ensures
        r.0@ == line_result(line@, start_positions@, reverse),
        r.1@ == line_moves(
            line_groups(line@, start_positions@, reverse),
            start_positions@,
            reverse,
            line_groups(line@, start_positions@, reverse).len() as int,
        ),
        r.2@ == line_merges(
            line_groups(line@, start_positions@, reverse),
            start_positions@,
            reverse,
            line_groups(line@, start_positions@, reverse).len() as int,
        ),
        r.3 == (r.0@ != line@),
        r.4 == line_gain(
            line_groups(line@, start_positions@, reverse),
            line_groups(line@, start_positions@, reverse).len() as int,
        ),
{
    let ghost l = line@;
    let ghost pos = start_positions@;
    let mut new_line: [Option<u32>; 4] = [None; 4];
    let mut moved_tiles: Vec<MoveTile> = Vec::new();
    let mut merged_tiles: Vec<MergedTile> = Vec::new();
    let mut score_gain: u32 = 0;
    let ordered_indices: [usize; 4] = if reverse {
        [3, 2, 1, 0]
    } else {
        [0, 1, 2, 3]
    };
    let mut tiles: Vec<(u32, (usize, usize))> = Vec::new();
    let mut k: usize = 0;
    while k < 4
        invariant
            k <= 4,
            l == line@,
            pos == start_positions@,
            forall|m: int| 0 <= m < 4 ==> #[trigger] ordered_indices@[m] == order_index(reverse, m),
            tiles@ == line_tiles_upto(l, pos, reverse, k as int),
        decreases 4 - k,
    {
        let index = ordered_indices[k];
        if let Some(value) = line[index] {
            tiles.push((value, start_positions[index]));
        }
        k += 1;
    }
    proof {
        lemma_line_tiles_len(l, pos, reverse, 4);
        lemma_groups_len(tiles@);
    }
    let ghost g = line_groups(l, pos, reverse);
    assert(tiles@.skip(0) =~= tiles@);
    let mut dest: usize = 0;
    let mut tile_index: usize = 0;
    while tile_index < tiles.len()
        invariant
            tiles@ == line_tiles_upto(l, pos, reverse, 4),
            g == groups(tiles@),
            tiles@.len() <= 4,
            g.len() <= 4,
            tile_index <= tiles@.len(),
            dest <= g.len(),
            line_fits(l, pos, reverse),
            pos == start_positions@,
            g.subrange(dest as int, g.len() as int) == groups(tiles@.skip(tile_index as int)),
            forall|i: int|
                0 <= i < 4 ==> #[trigger] new_line@[i] == if order_index(reverse, i) < dest {
                    Some(merged_value(g[order_index(reverse, i)]) as u32)
                } else {
                    None
                },
            moved_tiles@ == line_moves(g, pos, reverse, dest as int),
            merged_tiles@ == line_merges(g, pos, reverse, dest as int),
            score_gain == line_gain(g, dest as int),
        decreases tiles.len() - tile_index,
    {
        let ghost rest = tiles@.skip(tile_index as int);
        assert(rest.len() > 0);
        assert(groups(rest).len() > 0);
        assert(dest < g.len());
        assert(g.subrange(dest as int, g.len() as int)[0] == g[dest as int]);
        let target_index = if reverse {
            3 - dest
        } else {
            dest
        };
        let (to_row, to_col) = start_positions[target_index];
        let (value, (from_row, from_col)) = tiles[tile_index];
        let mut pair = false;
        if tile_index + 1 < tiles.len() {
            if value == tiles[tile_index + 1].0 {
                pair = true;
            }
        }
        proof {
            lemma_line_gain_monotone(g, dest + 1, g.len() as int);
        }
        if pair {
            let (_, (src2_row, src2_col)) = tiles[tile_index + 1];
            assert(merged_value(g[dest as int]) <= u32::MAX);
            let new_value = value * 2;
            new_line[target_index] = Some(new_value);
            merged_tiles.push((from_row, from_col, src2_row, src2_col, to_row, to_col, new_value));
            score_gain += new_value;
            assert(rest.skip(2) =~= tiles@.skip(tile_index + 2));
            assert(groups(rest).skip(1) =~= groups(rest.skip(2)));
            assert(g.subrange(dest + 1, g.len() as int) =~= groups(rest).skip(1));
            tile_index += 2;
        } else {
            new_line[target_index] = Some(value);
            if from_row != to_row || from_col != to_col {
                moved_tiles.push((from_row, from_col, to_row, to_col, value));
            }
            assert(rest.skip(1) =~= tiles@.skip(tile_index + 1));
            assert(groups(rest).skip(1) =~= groups(rest.skip(1)));
            assert(g.subrange(dest + 1, g.len() as int) =~= groups(rest).skip(1));
            tile_index += 1;
        }
        assert(moved_tiles@ =~= line_moves(g, pos, reverse, dest + 1));
        assert(merged_tiles@ =~= line_merges(g, pos, reverse, dest + 1));
        dest += 1;
    }
    assert(tiles@.skip(tiles@.len() as int) =~= Seq::<(u32, (usize, usize))>::empty());
    assert(new_line@ =~= line_result(l, pos, reverse));
    let mut changed = false;
    let mut i: usize = 0;
    while i < 4
        invariant
            i <= 4,
            l == line@,
            changed == exists|m: int| 0 <= m < i && new_line@[m] != l[m],
        decreases 4 - i,
    {
        let same = match (line[i], new_line[i]) {
            (Some(a), Some(b)) => a == b,
            (None, None) => true,
            _ => false,
        };
        if !same {
            changed = true;
        }
        i += 1;
    }
    proof {
        if !changed {
            assert(new_line@ =~= l);
        }
    }
    (new_line, moved_tiles, merged_tiles, changed, score_gain)
}

// ---------------------------------------------------------------------------
// Model of the grid
// ---------------------------------------------------------------------------

/// The grid as a sequence of rows.
pub open spec fn cells(grid: [[Option<u32>; 4]; 4]) -> Seq<Seq<Option<u32>>> {
    Seq::new(4, |r: int| grid@[r]@)
}

pub open spec fn is_vertical(dir: Direction) -> bool {
    dir == Direction::Up || dir == Direction::Down
}

pub open spec fn is_reverse(dir: Direction) -> bool {
    dir == Direction::Right || dir == Direction::Down
}

/// Grid position of cell `i` of line `idx` (a column for vertical moves, a
/// row otherwise).
pub open spec fn line_pos(dir: Direction, idx: int, i: int) -> (usize, usize) {
    if is_vertical(dir) {
        (i as usize, idx as usize)
    } else {
        (idx as usize, i as usize)
    }
}

pub open spec fn line_positions(dir: Direction, idx: int) -> Seq<(usize, usize)> {
    Seq::new(4, |i: int| line_pos(dir, idx, i))
}

pub open spec fn line_cells(g: Seq<Seq<Option<u32>>>, dir: Direction, idx: int) -> Seq<Option<u32>> {
    Seq::new(4, |i: int| g[line_pos(dir, idx, i).0 as int][line_pos(dir, idx, i).1 as int])
}

pub open spec fn line_groups_of(g: Seq<Seq<Option<u32>>>, dir: Direction, idx: int) -> Seq<
    (u32, (usize, usize), Option<(usize, usize)>),
> {
    line_groups(line_cells(g, dir, idx), line_positions(dir, idx), is_reverse(dir))
}

/// The grid after moving every line in `dir`.
pub open spec fn grid_after(g: Seq<Seq<Option<u32>>>, dir: Direction) -> Seq<Seq<Option<u32>>> {
    Seq::new(
        4,
        |r: int|
            Seq::new(
                4,
                |c: int|
                    {
                        let idx = if is_vertical(dir) {
                            c
                        } else {
                            r
                        };
                        let i = if is_vertical(dir) {
                            r
                        } else {
                            c
                        };
                        line_result(line_cells(g, dir, idx), line_positions(dir, idx), is_reverse(dir))[i]
                    },
            ),
    )
}

pub open spec fn dir_fits(g: Seq<Seq<Option<u32>>>, dir: Direction) -> bool {
    forall|idx: int|
        0 <= idx < 4 ==> #[trigger] line_fits(line_cells(g, dir, idx), line_positions(dir, idx), is_reverse(dir))
}

/// Score gained by the first `n` lines.
pub open spec fn dir_gain(g: Seq<Seq<Option<u32>>>, dir: Direction, n: int) -> int
    decreases n,
{
    if n <= 0 {
        0
    } else {
        let lg = line_groups_of(g, dir, n - 1);
        dir_gain(g, dir, n - 1) + line_gain(lg, lg.len() as int)
    }
}

pub open spec fn dir_moves(g: Seq<Seq<Option<u32>>>, dir: Direction, n: int) -> Seq<MoveTile>
    decreases n,
{
    if n <= 0 {
        seq![]
    } else {
        let lg = line_groups_of(g, dir, n - 1);
        dir_moves(g, dir, n - 1) + line_moves(lg, line_positions(dir, n - 1), is_reverse(dir), lg.len() as int)
    }
}

pub open spec fn dir_merges(g: Seq<Seq<Option<u32>>>, dir: Direction, n: int) -> Seq<MergedTile>
    decreases n,
{
    if n <= 0 {
        seq![]
    } else {
        let lg = line_groups_of(g, dir, n - 1);
        dir_merges(g, dir, n - 1) + line_merges(lg, line_positions(dir, n - 1), is_reverse(dir), lg.len() as int)
    }
}

/// Empty cells of the first `n` cells in row-major order.
pub open spec fn empties_upto(g: Seq<Seq<Option<u32>>>, n: int) -> Seq<(usize, usize)>
    decreases n,
{
    if n <= 0 {
        seq![]
    } else {
        let r = (n - 1) / 4;
        let c = (n - 1) % 4;
        if g[r][c] is None {
            empties_upto(g, n - 1).push((r as usize, c as usize))
        } else {
            empties_upto(g, n - 1)
        }
    }
}

/// No cell is empty and no two neighbours hold the same value.
pub open spec fn stuck(g: Seq<Seq<Option<u32>>>) -> bool {
    &&& forall|r: int, c: int| 0 <= r < 4 && 0 <= c < 4 ==> #[trigger] g[r][c] is Some
    &&& forall|r: int, c: int| 0 <= r < 4 && 0 <= c < 3 ==> #[trigger] g[r][c] != g[r][c + 1]
    &&& forall|r: int, c: int| 0 <= r < 3 && 0 <= c < 4 ==> #[trigger] g[r][c] != g[r + 1][c]
}

/// `after` is `before` with the empty cell `(r, c)` now holding `v`, a 2 or a 4.
pub open spec fn spawned(before: Seq<Seq<Option<u32>>>, after: Seq<Seq<Option<u32>>>, t: (usize, usize, u32)) -> bool {
    &&& t.0 < 4 && t.1 < 4
    &&& before[t.0 as int][t.1 as int] is None
    &&& after[t.0 as int][t.1 as int] == Some(t.2)
    &&& (t.2 == 2 || t.2 == 4)
    &&& forall|i: int, j: int|
        0 <= i < 4 && 0 <= j < 4 && (i != t.0 || j != t.1) ==> #[trigger] after[i][j] == before[i][j]
}

proof fn lemma_empties_upto(g: Seq<Seq<Option<u32>>>, n: int)
    requires
        0 <= n <= 16,
    ensures
        forall|k: int|
            0 <= k < empties_upto(g, n).len() ==> {
                let (r, c) = #[trigger] empties_upto(g, n)[k];
                r < 4 && c < 4 && g[r as int][c as int] is None
            },
        empties_upto(g, n).len() == 0 ==> forall|m: int| 0 <= m < n ==> #[trigger] g[m / 4][m % 4] is Some,
    decreases n,
{
    if n > 0 {
        lemma_empties_upto(g, n - 1);
    }
}

impl GameState {
    /// An empty grid, no score, no move yet.
    pub fn default() -> (s: GameState)
        ensures
            forall|r: int, c: int| 0 <= r < 4 && 0 <= c < 4 ==> #[trigger] cells(s.grid)[r][c] is None,
            s.score == 0,
            !s.game_over,
            !s.needs_sync,
            s.last_move is None,
    {
        GameState { grid: [[None; 4]; 4], score: 0, game_over: false, needs_sync: false, last_move: None }
    }

    /// The empty cells in row-major order.
    pub fn empty_cells(&self) -> (v: Vec<(usize, usize)>)
        ensures
            v@ == empties_upto(cells(self.grid), 16),
    {
        let mut v: Vec<(usize, usize)> = Vec::new();
        let mut row: usize = 0;
        while row < 4
            invariant
                row <= 4,
                v@ == empties_upto(cells(self.grid), (row * 4) as int),
            decreases 4 - row,
        {
            let mut col: usize = 0;
            while col < 4
                invariant
                    row < 4,
                    col <= 4,
                    v@ == empties_upto(cells(self.grid), (row * 4 + col) as int),
                decreases 4 - col,
            {
                assert((row * 4 + col) / 4 == row && (row * 4 + col) % 4 == col);
                if self.grid[row][col].is_none() {
                    v.push((row, col));
                }
                col += 1;
            }
            row += 1;
        }
        v
    }

    /// Puts a 2 (nine times in ten) or a 4 on a random empty cell and returns
    /// it; `None` when the grid is full.
    pub fn spawn_random_tile(&mut self) -> (t: Option<(usize, usize, u32)>)
        ensures
            final(self).score == old(self).score,
            final(self).game_over == old(self).game_over,
            final(self).needs_sync == old(self).needs_sync,
            final(self).last_move == old(self).last_move,
            t is None <==> empties_upto(cells(old(self).grid), 16).len() == 0,
            t is None ==> final(self).grid == old(self).grid,
            t matches Some(x) ==> spawned(cells(old(self).grid), cells(final(self).grid), x),
    {
        let empty = self.empty_cells();
        proof {
            lemma_empties_upto(cells(self.grid), 16);
        }
        if empty.len() == 0 {
            return None;
        }
        let idx = index_below(empty.len());
        let (row, col) = empty[idx];
        assert(row < 4 && col < 4);
        let value: u32 = if chance(9, 10) {
            2
        } else {
            4
        };
        let ghost before = cells(self.grid);
        let mut line = self.grid[row];
        line[col] = Some(value);
        self.grid[row] = line;
        assert(spawned(before, cells(self.grid), (row, col, value)));
        Some((row, col, value))
    }

    /// No move is possible: the grid is full and no two neighbours are equal.
    pub fn check_game_over(&self) -> (r: bool)
        ensures
            r == stuck(cells(self.grid)),
    {
        let ghost g = cells(self.grid);
        if self.empty_cells().len() != 0 {
            proof {
                lemma_empties_upto(g, 16);
                let (r, c) = empties_upto(g, 16)[0];
                assert(g[r as int][c as int] is None);
            }
            return false;
        }
        proof {
            lemma_empties_upto(g, 16);
            assert forall|r: int, c: int| 0 <= r < 4 && 0 <= c < 4 implies #[trigger] g[r][c] is Some by {
                assert((r * 4 + c) / 4 == r && (r * 4 + c) % 4 == c);
            }
        }
        let mut row: usize = 0;
        while row < 4
            invariant
                row <= 4,
                g == cells(self.grid),
                forall|r: int, c: int| 0 <= r < 4 && 0 <= c < 4 ==> #[trigger] g[r][c] is Some,
                forall|r: int, c: int| 0 <= r < row && 0 <= c < 3 ==> #[trigger] g[r][c] != g[r][c + 1],
                forall|r: int, c: int| 0 <= r < row && r < 3 && 0 <= c < 4 ==> #[trigger] g[r][c] != g[r + 1][c],
            decreases 4 - row,
        {
            let mut col: usize = 0;
            while col < 4
                invariant
                    row < 4,
                    col <= 4,
                    g == cells(self.grid),
                    forall|r: int, c: int| 0 <= r < 4 && 0 <= c < 4 ==> #[trigger] g[r][c] is Some,
                    forall|r: int, c: int| 0 <= r < row && 0 <= c < 3 ==> #[trigger] g[r][c] != g[r][c + 1],
                    forall|r: int, c: int| 0 <= r < row && r < 3 && 0 <= c < 4 ==> #[trigger] g[r][c] != g[r + 1][c],
                    forall|c: int| 0 <= c < col && c < 3 ==> #[trigger] g[row as int][c] != g[row as int][c + 1],
                    forall|c: int| 0 <= c < col && row < 3 ==> #[trigger] g[row as int][c] != g[row + 1][c],
                decreases 4 - col,
            {
                assert(g[row as int][col as int] is Some);
                let val = self.grid[row][col].unwrap();
                if col < 3 {
                    if let Some(right) = self.grid[row][col + 1] {
                        if right == val {
                            return false;
                        }
                    }
                }
                if row < 3 {
                    if let Some(below) = self.grid[row + 1][col] {
                        if below == val {
                            return false;
                        }
                    }
                }
                col += 1;
            }
            row += 1;
        }
        true
    }

    /// Back to an empty grid and no score.
    pub fn reset(&mut self)
        ensures
            forall|r: int, c: int| 0 <= r < 4 && 0 <= c < 4 ==> #[trigger] cells(final(self).grid)[r][c] is None,
            final(self).score == 0,
            !final(self).game_over,
            !final(self).needs_sync,
            final(self).last_move is None,
    {
        self.grid = [[None; 4]; 4];
        self.score = 0;
        self.game_over = false;
        self.needs_sync = false;
        self.last_move = None;
    }
}

/// Line of the cell `(r, c)` for a move in `dir`, and its place in the line.
pub open spec fn line_of(dir: Direction, r: int, c: int) -> (int, int) {
    if is_vertical(dir) {
        (c, r)
    } else {
        (r, c)
    }
}

/// Moves every line of the grid in `dir`; returns whether anything changed
/// and the movement records.
pub fn move_direction(grid: &mut GameState, dir: Direction) -> (r: (bool, MoveResult))
    requires
        dir_fits(cells(old(grid).grid), dir),
        old(grid).score + dir_gain(cells(old(grid).grid), dir, 4) <= u32::MAX,
    ensures
        cells(final(grid).grid) == grid_after(cells(old(grid).grid), dir),
        final(grid).score == old(grid).score + dir_gain(cells(old(grid).grid), dir, 4),
        final(grid).game_over == old(grid).game_over,
        final(grid).needs_sync == old(grid).needs_sync,
        final(grid).last_move == old(grid).last_move,
        r.0 == (grid_after(cells(old(grid).grid), dir) != cells(old(grid).grid)),
        r.1.moved@ == dir_moves(cells(old(grid).grid), dir, 4),
        r.1.merged@ == dir_merges(cells(old(grid).grid), dir, 4),
        r.1.spawned@.len() == 0,
{
    let ghost g = cells(grid.grid);
    let ghost ga = grid_after(g, dir);
    let mut result = MoveResult::new();
    let mut moved = false;
    let is_vertical = match dir {
        Direction::Up | Direction::Down => true,
        _ => false,
    };
    let reverse = match dir {
        Direction::Right | Direction::Down => true,
        _ => false,
    };
    let mut line_idx: usize = 0;
    while line_idx < 4
        invariant
            line_idx <= 4,
            g == cells(old(grid).grid),
            ga == grid_after(g, dir),
            is_vertical == self::is_vertical(dir),
            reverse == is_reverse(dir),
            dir_fits(g, dir),
            old(grid).score + dir_gain(g, dir, 4) <= u32::MAX,
            grid.game_over == old(grid).game_over,
            grid.needs_sync == old(grid).needs_sync,
            grid.last_move == old(grid).last_move,
            forall|r: int, c: int|
                0 <= r < 4 && 0 <= c < 4 ==> #[trigger] cells(grid.grid)[r][c] == if line_of(dir, r, c).0
                    < line_idx {
                    ga[r][c]
                } else {
                    g[r][c]
                },
            grid.score == old(grid).score + dir_gain(g, dir, line_idx as int),
            moved == exists|idx: int| 0 <= idx < line_idx && #[trigger] line_result(
                line_cells(g, dir, idx),
                line_positions(dir, idx),
                reverse,
            ) != line_cells(g, dir, idx),
            result.moved@ == dir_moves(g, dir, line_idx as int),
            result.merged@ == dir_merges(g, dir, line_idx as int),
            result.spawned@.len() == 0,
        decreases 4 - line_idx,
    {
        let mut line: [Option<u32>; 4] = [None; 4];
        let mut start_positions: [(usize, usize); 4] = [(0, 0); 4];
        let mut i: usize = 0;
        while i < 4
            invariant
                i <= 4,
                line_idx < 4,
                is_vertical == self::is_vertical(dir),
                forall|r: int, c: int|
                    0 <= r < 4 && 0 <= c < 4 ==> #[trigger] cells(grid.grid)[r][c] == if line_of(dir, r, c).0
                        < line_idx {
                        ga[r][c]
                    } else {
                        g[r][c]
                    },
                forall|k: int| 0 <= k < i ==> #[trigger] line@[k] == line_cells(g, dir, line_idx as int)[k],
                forall|k: int| 0 <= k < i ==> #[trigger] start_positions@[k] == line_positions(dir, line_idx as int)[k],
            decreases 4 - i,
        {
            let (row, col) = if is_vertical {
                (i, line_idx)
            } else {
                (line_idx, i)
            };
            assert(cells(grid.grid)[row as int][col as int] == g[row as int][col as int]);
            line[i] = grid.grid[row][col];
            start_positions[i] = (row, col);
            i += 1;
        }
        assert(line@ =~= line_cells(g, dir, line_idx as int));
        assert(start_positions@ =~= line_positions(dir, line_idx as int));
        assert(line_fits(line_cells(g, dir, line_idx as int), line_positions(dir, line_idx as int), is_reverse(dir)));
        let (new_line, moved_tiles, merged_tiles, changed, score_gain) = process_line_left(
            &line,
            &start_positions,
            reverse,
        );
        let ghost lr = line_result(line@, start_positions@, reverse);
        if changed {
            moved = true;
        }
        proof {
            lemma_dir_gain_monotone(g, dir, line_idx + 1, 4);
            assert(line_groups(line@, start_positions@, reverse) == line_groups_of(g, dir, line_idx as int));
            assert(dir_gain(g, dir, line_idx + 1) == dir_gain(g, dir, line_idx as int) + line_gain(
                line_groups_of(g, dir, line_idx as int),
                line_groups_of(g, dir, line_idx as int).len() as int,
            ));
        }
        grid.score += score_gain;
        let mut i: usize = 0;
        while i < 4
            invariant
                i <= 4,
                line_idx < 4,
                is_vertical == self::is_vertical(dir),
                reverse == is_reverse(dir),
                ga == grid_after(g, dir),
                line@ == line_cells(g, dir, line_idx as int),
                start_positions@ == line_positions(dir, line_idx as int),
                new_line@ == lr,
                lr == line_result(line@, start_positions@, reverse),
                forall|r: int, c: int|
                    0 <= r < 4 && 0 <= c < 4 ==> #[trigger] cells(grid.grid)[r][c] == if line_of(dir, r, c).0
                        < line_idx || (line_of(dir, r, c).0 == line_idx && line_of(dir, r, c).1 < i) {
                        ga[r][c]
                    } else {
                        g[r][c]
                    },
                grid.game_over == old(grid).game_over,
                grid.needs_sync == old(grid).needs_sync,
                grid.last_move == old(grid).last_move,
                grid.score == old(grid).score + dir_gain(g, dir, line_idx + 1),
            decreases 4 - i,
        {
            let (row, col) = if is_vertical {
                (i, line_idx)
            } else {
                (line_idx, i)
            };
            assert(line_of(dir, row as int, col as int) == (line_idx as int, i as int));
            assert(ga[row as int][col as int] == lr[i as int]);
            let ghost before = cells(grid.grid);
            let mut row_cells = grid.grid[row];
            row_cells[col] = new_line[i];
            grid.grid[row] = row_cells;
            assert forall|r: int, c: int| 0 <= r < 4 && 0 <= c < 4 implies #[trigger] cells(grid.grid)[r][c]
                == if r == row && c == col {
                lr[i as int]
            } else {
                before[r][c]
            } by {
                if r == row {
                    assert(cells(grid.grid)[r] == row_cells@);
                } else {
                    assert(cells(grid.grid)[r] == before[r]);
                }
            }
            i += 1;
        }
        let mut moved_tiles = moved_tiles;
        let mut merged_tiles = merged_tiles;
        result.moved.append(&mut moved_tiles);
        result.merged.append(&mut merged_tiles);
        proof {
            assert(result.moved@ =~= dir_moves(g, dir, line_idx + 1));
            assert(result.merged@ =~= dir_merges(g, dir, line_idx + 1));
            if changed {
                assert(line_result(line_cells(g, dir, line_idx as int), line_positions(dir, line_idx as int), reverse)
                    != line_cells(g, dir, line_idx as int));
            }
        }
        line_idx += 1;
    }
    proof {
        if moved {
            let idx = choose|idx: int| 0 <= idx < 4 && #[trigger] line_result(
                line_cells(g, dir, idx),
                line_positions(dir, idx),
                reverse,
            ) != line_cells(g, dir, idx);
            let lr = line_result(line_cells(g, dir, idx), line_positions(dir, idx), reverse);
            assert(!(lr =~= line_cells(g, dir, idx)));
            let i = choose|i: int| 0 <= i < 4 && lr[i] != line_cells(g, dir, idx)[i];
            let (r, c) = line_pos(dir, idx, i);
            assert(line_of(dir, r as int, c as int) == (idx, i));
            assert(ga[r as int][c as int] != g[r as int][c as int]);
        } else {
            assert forall|r: int| 0 <= r < 4 implies #[trigger] ga[r] =~= g[r] by {
                assert forall|c: int| 0 <= c < 4 implies #[trigger] ga[r][c] == g[r][c] by {
                    let (idx, i) = line_of(dir, r, c);
                    let lr = line_result(line_cells(g, dir, idx), line_positions(dir, idx), reverse);
                    assert(lr =~= line_cells(g, dir, idx));
                }
            }
            assert(ga =~= g);
        }
        assert forall|r: int| 0 <= r < 4 implies #[trigger] cells(grid.grid)[r] =~= ga[r] by {
            assert forall|c: int| 0 <= c < 4 implies #[trigger] cells(grid.grid)[r][c] == ga[r][c] by {
                assert(line_of(dir, r, c).0 < 4);
            }
        }
        assert(cells(grid.grid) =~= ga);
    }
    (moved, result)
}

proof fn lemma_dir_gain_monotone(g: Seq<Seq<Option<u32>>>, dir: Direction, m: int, n: int)
    requires
        0 <= m <= n,
    ensures
        0 <= dir_gain(g, dir, m) <= dir_gain(g, dir, n),
    decreases n,
{
    if n > m {
        lemma_dir_gain_monotone(g, dir, m, n - 1);
        let lg = line_groups_of(g, dir, n - 1);
        lemma_line_gain_nonneg(lg, lg.len() as int);
    } else {
        lemma_dir_gain_nonneg(g, dir, m);
    }
}

proof fn lemma_dir_gain_nonneg(g: Seq<Seq<Option<u32>>>, dir: Direction, n: int)
    ensures
        dir_gain(g, dir, n) >= 0,
    decreases n,
{
    if n > 0 {
        lemma_dir_gain_nonneg(g, dir, n - 1);
        let lg = line_groups_of(g, dir, n - 1);
        lemma_line_gain_nonneg(lg, lg.len() as int);
    }
}

impl GameState {
    /// Handles one move request: moves the tiles, spawns a new tile when
    /// something moved, records the move for the front end and checks for
    /// the end of the game. Returns whether the game has just ended.
    pub fn process_move(&mut self, dir: Direction) -> (ended: bool)
        requires
            !old(self).game_over ==> dir_fits(cells(old(self).grid), dir),
            !old(self).game_over ==> old(self).score + dir_gain(cells(old(self).grid), dir, 4)
                <= u32::MAX,
        ensures
            old(self).game_over ==> {
                &&& !ended
                &&& final(self).grid == old(self).grid
                &&& final(self).score == old(self).score
                &&& final(self).game_over
                &&& final(self).needs_sync == old(self).needs_sync
                &&& final(self).last_move == old(self).last_move
            },
            !old(self).game_over && grid_after(cells(old(self).grid), dir) == cells(old(self).grid)
                ==> {
                &&& !ended
                &&& cells(final(self).grid) == cells(old(self).grid)
                &&& final(self).score == old(self).score + dir_gain(cells(old(self).grid), dir, 4)
                &&& !final(self).game_over
                &&& final(self).needs_sync == old(self).needs_sync
                &&& final(self).last_move == old(self).last_move
            },
            !old(self).game_over && grid_after(cells(old(self).grid), dir) != cells(old(self).grid)
                ==> {
                let ga = grid_after(cells(old(self).grid), dir);
                &&& final(self).score == old(self).score + dir_gain(cells(old(self).grid), dir, 4)
                &&& final(self).needs_sync
                &&& final(self).last_move matches Some(m) && {
                    &&& m.moved@ == dir_moves(cells(old(self).grid), dir, 4)
                    &&& m.merged@ == dir_merges(cells(old(self).grid), dir, 4)
                    &&& m.spawned@.len() <= 1
                    &&& m.spawned@.len() == 0 ==> cells(final(self).grid) == ga
                    &&& m.spawned@.len() == 1 ==> spawned(ga, cells(final(self).grid), m.spawned@[0])
                }
                &&& final(self).game_over == stuck(cells(final(self).grid))
                &&& ended == final(self).game_over
            },
    {
        if self.game_over {
            return false;
        }
        let (moved, result) = move_direction(self, dir);
        if moved {
            let mut result = result;
            let ghost ga = cells(self.grid);
            if let Some((row, col, value)) = self.spawn_random_tile() {
                result.spawned.push((row, col, value));
            }
            assert(result.spawned@.len() == 0 ==> cells(self.grid) =~= ga);
            self.last_move = Some(result);
            self.needs_sync = true;
            if self.check_game_over() {
                self.game_over = true;
                return true;
            }
        }
        false
    }
}

} // verus!

verus! {

proof fn lemma_full_line_tiles(line: Seq<Option<u32>>, pos: Seq<(usize, usize)>, reverse: bool, n: int)
    requires
        0 <= n <= 4,
        forall|i: int| 0 <= i < 4 ==> (#[trigger] line[i]) is Some,
    ensures
        line_tiles_upto(line, pos, reverse, n) =~= Seq::new(
            n as nat,
            |k: int| (line[order_index(reverse, k)]->0, pos[order_index(reverse, k)]),
        ),
    decreases n,
{
    if n > 0 {
        lemma_full_line_tiles(line, pos, reverse, n - 1);
        assert(line[order_index(reverse, n - 1)] is Some);
    }
}

/// A full line without equal neighbours stays as it is.
proof fn lemma_stuck_line(line: Seq<Option<u32>>, pos: Seq<(usize, usize)>, reverse: bool)
    requires
        line.len() == 4,
        forall|i: int| 0 <= i < 4 ==> (#[trigger] line[i]) is Some,
        forall|i: int| 0 <= i < 3 ==> #[trigger] line[i] != line[i + 1],
    ensures
        line_result(line, pos, reverse) == line,
{
    lemma_full_line_tiles(line, pos, reverse, 4);
    let t = line_tiles_upto(line, pos, reverse, 4);
    assert forall|i: int| 0 <= i < t.len() - 1 implies #[trigger] t[i].0 != t[i + 1].0 by {
        if reverse {
            assert(line[3 - i] != line[3 - i - 1]) by {
                assert(line[2 - i] != line[(2 - i) + 1]);
            }
            assert(line[3 - i] is Some && line[2 - i] is Some);
        } else {
            assert(line[i] != line[i + 1]);
            assert(line[i] is Some && line[i + 1] is Some);
        }
    }
    crate::game2048::board::lemma_groups_single(t);
    assert(line_result(line, pos, reverse) =~= line);
}

/// Law: on a stuck grid (full, no equal neighbours) a move in any direction
/// leaves every tile where it is, so the game is rightly over.
pub proof fn stuck_grid_cannot_move(g: Seq<Seq<Option<u32>>>, dir: Direction)
    requires
        g.len() == 4,
        forall|r: int| 0 <= r < 4 ==> (#[trigger] g[r]).len() == 4,
        stuck(g),
    ensures
        grid_after(g, dir) == g,
{
    assert forall|idx: int| 0 <= idx < 4 implies #[trigger] line_result(
        line_cells(g, dir, idx),
        line_positions(dir, idx),
        is_reverse(dir),
    ) == line_cells(g, dir, idx) by {
        let l = line_cells(g, dir, idx);
        assert forall|i: int| 0 <= i < 4 implies (#[trigger] l[i]) is Some by {
            let (r, c) = line_pos(dir, idx, i);
            assert(g[r as int][c as int] is Some);
        }
        assert forall|i: int| 0 <= i < 3 implies #[trigger] l[i] != l[i + 1] by {
            if is_vertical(dir) {
                assert(g[i][idx] != g[i + 1][idx]);
            } else {
                assert(g[idx][i] != g[idx][i + 1]);
            }
        }
        lemma_stuck_line(l, line_positions(dir, idx), is_reverse(dir));
    }
    assert forall|r: int| 0 <= r < 4 implies #[trigger] grid_after(g, dir)[r] =~= g[r] by {
        assert forall|c: int| 0 <= c < 4 implies #[trigger] grid_after(g, dir)[r][c] == g[r][c] by {
            let idx = if is_vertical(dir) {
                c
            } else {
                r
            };
            assert(line_result(line_cells(g, dir, idx), line_positions(dir, idx), is_reverse(dir)) == line_cells(
                g,
                dir,
                idx,
            ));
        }
    }
    assert(grid_after(g, dir) =~= g);
}


// ---------------------------------------------------------------------------
// The total of the tiles
// ---------------------------------------------------------------------------

pub open spec fn tile_value(o: Option<u32>) -> int {
    match o {
        Some(v) => v as int,
        None => 0,
    }
}

/// Total of the four cells of a line.
pub open spec fn line_total(l: Seq<Option<u32>>) -> int {
    tile_value(l[0]) + tile_value(l[1]) + tile_value(l[2]) + tile_value(l[3])
}

/// Total of the tiles of a 4x4 grid.
pub open spec fn grid_total(g: Seq<Seq<Option<u32>>>) -> int {
    line_total(g[0]) + line_total(g[1]) + line_total(g[2]) + line_total(g[3])
}

spec fn tiles_total(t: Seq<(u32, (usize, usize))>) -> int
    decreases t.len(),
{
    if t.len() == 0 {
        0
    } else {
        tiles_total(t.drop_last()) + t.last().0
    }
}

spec fn groups_total(g: Seq<(u32, (usize, usize), Option<(usize, usize)>)>, n: int) -> int
    decreases n,
{
    if n <= 0 {
        0
    } else {
        groups_total(g, n - 1) + merged_value(g[n - 1])
    }
}

proof fn lemma_tiles_total_front(t: Seq<(u32, (usize, usize))>)
    requires
        t.len() > 0,
    ensures
        tiles_total(t) == t[0].0 + tiles_total(t.skip(1)),
    decreases t.len(),
{
    if t.len() > 1 {
        lemma_tiles_total_front(t.drop_last());
        assert(t.drop_last().skip(1) =~= t.skip(1).drop_last());
        assert(t.skip(1).last() == t.last());
        assert(tiles_total(t.skip(1)) == tiles_total(t.skip(1).drop_last()) + t.skip(1).last().0);
    } else {
        assert(t.skip(1).len() == 0);
        assert(t.drop_last().len() == 0);
        assert(tiles_total(t.drop_last()) == 0);
        assert(t.last() == t[0]);
    }
}

proof fn lemma_groups_total_front(g: Seq<(u32, (usize, usize), Option<(usize, usize)>)>, n: int)
    requires
        0 < n <= g.len(),
    ensures
        groups_total(g, n) == merged_value(g[0]) + groups_total(g.skip(1), n - 1),
    decreases n,
{
    if n > 1 {
        lemma_groups_total_front(g, n - 1);
        assert(g.skip(1)[n - 2] == g[n - 1]);
        assert(groups_total(g.skip(1), n - 1) == groups_total(g.skip(1), n - 2) + merged_value(g.skip(1)[n - 2]));
    } else {
        assert(groups_total(g, 0) == 0);
        assert(groups_total(g.skip(1), 0) == 0);
    }
}

proof fn lemma_groups_keep_total(t: Seq<(u32, (usize, usize))>)
    ensures
        groups_total(groups(t), groups(t).len() as int) == tiles_total(t),
    decreases t.len(),
{
    let g = groups(t);
    if t.len() == 0 {
    } else if t.len() >= 2 && t[0].0 == t[1].0 {
        let rest = t.skip(2);
        lemma_groups_keep_total(rest);
        assert(g == seq![(t[0].0, t[0].1, Some(t[1].1))] + groups(rest));
        assert(g.skip(1) =~= groups(rest));
        lemma_groups_total_front(g, g.len() as int);
        lemma_tiles_total_front(t);
        lemma_tiles_total_front(t.skip(1));
        assert(t.skip(1).skip(1) =~= rest);
    } else {
        let rest = t.skip(1);
        lemma_groups_keep_total(rest);
        assert(g == seq![(t[0].0, t[0].1, None::<(usize, usize)>)] + groups(rest));
        assert(g.skip(1) =~= groups(rest));
        lemma_groups_total_front(g, g.len() as int);
        lemma_tiles_total_front(t);
    }
}

proof fn lemma_line_tiles_total(line: Seq<Option<u32>>, pos: Seq<(usize, usize)>, reverse: bool, n: int)
    requires
        0 <= n <= 4,
    ensures
        tiles_total(line_tiles_upto(line, pos, reverse, n)) == (if n > 0 {
            tile_value(line[order_index(reverse, 0)])
        } else {
            0
        }) + (if n > 1 {
            tile_value(line[order_index(reverse, 1)])
        } else {
            0
        }) + (if n > 2 {
            tile_value(line[order_index(reverse, 2)])
        } else {
            0
        }) + (if n > 3 {
            tile_value(line[order_index(reverse, 3)])
        } else {
            0
        }),
        line_tiles_upto(line, pos, reverse, n).len() <= n,
    decreases n,
{
    if n > 0 {
        lemma_line_tiles_total(line, pos, reverse, n - 1);
        let rest = line_tiles_upto(line, pos, reverse, n - 1);
        let i = order_index(reverse, n - 1);
        if line[i] is Some {
            assert(rest.push((line[i]->0, pos[i])).drop_last() =~= rest);
        }
    }
}

/// Law: a line slid towards its end keeps the total of its tiles.
pub proof fn line_move_keeps_total(line: Seq<Option<u32>>, pos: Seq<(usize, usize)>, reverse: bool)
    requires
        line.len() == 4,
        line_fits(line, pos, reverse),
    ensures
        line_total(line_result(line, pos, reverse)) == line_total(line),
{
    let t = line_tiles_upto(line, pos, reverse, 4);
    let g = line_groups(line, pos, reverse);
    lemma_line_tiles_total(line, pos, reverse, 4);
    lemma_groups_keep_total(t);
    lemma_groups_len(t);
    let out = line_result(line, pos, reverse);
    reveal_with_fuel(groups_total, 5);
    assert forall|j: int| 0 <= j < g.len() implies 0 <= merged_value(#[trigger] g[j]) <= u32::MAX by {}
    assert(line_total(line) == tiles_total(t));
    assert(g.len() <= 4);
    if reverse {
        assert(out[0] == (if 3 < g.len() { Some(merged_value(g[3]) as u32) } else { None }));
        assert(out[3] == (if 0 < g.len() { Some(merged_value(g[0]) as u32) } else { None }));
    }
}

/// Law: a move keeps the total of the tiles on the grid: merging two
/// tiles of value v gives one of value 2v, and nothing else appears or
/// disappears (the new tile comes after the move).
pub proof fn every_move_keeps_total(g: Seq<Seq<Option<u32>>>, dir: Direction)
    requires
        g.len() == 4,
        forall|r: int| 0 <= r < 4 ==> (#[trigger] g[r]).len() == 4,
        dir_fits(g, dir),
    ensures
        grid_total(grid_after(g, dir)) == grid_total(g),
{
    let a = grid_after(g, dir);
    let res = |idx: int| line_result(line_cells(g, dir, idx), line_positions(dir, idx), is_reverse(dir));
    assert forall|idx: int| 0 <= idx < 4 implies line_total(#[trigger] res(idx)) == line_total(line_cells(g, dir, idx)) by {
        assert(line_fits(line_cells(g, dir, idx), line_positions(dir, idx), is_reverse(dir)));
        line_move_keeps_total(line_cells(g, dir, idx), line_positions(dir, idx), is_reverse(dir));
    }
    assert(line_total(res(0)) == line_total(line_cells(g, dir, 0)));
    assert(line_total(res(1)) == line_total(line_cells(g, dir, 1)));
    assert(line_total(res(2)) == line_total(line_cells(g, dir, 2)));
    assert(line_total(res(3)) == line_total(line_cells(g, dir, 3)));
    if is_vertical(dir) {
        assert forall|r: int, c: int| 0 <= r < 4 && 0 <= c < 4 implies #[trigger] a[r][c] == res(c)[r]
            && line_cells(g, dir, c)[r] == g[r][c] by {}
    } else {
        assert forall|r: int, c: int| 0 <= r < 4 && 0 <= c < 4 implies #[trigger] a[r][c] == res(r)[c]
            && line_cells(g, dir, r)[c] == g[r][c] by {}
    }
}

} // verus!
