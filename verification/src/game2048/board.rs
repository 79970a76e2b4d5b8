//! 2048 board with slide animation records.
//!
//! A row slides left in three steps: its non-empty tiles are taken in order,
//! equal neighbours are paired greedily from the left (each tile merges at
//! most once), and the resulting groups are packed to the left. The other
//! directions rotate the board, slide left and rotate back.

use vstd::prelude::*;

use crate::random::{chance, choose_item};

verus! {

pub const SIZE: usize = 4;

/// Animation records of a slide.
pub struct SlideInfo {
    /// `(value, from_r, from_c, to_r, to_c)`
    pub slides: Vec<(u16, usize, usize, usize, usize)>,
    /// `(merged_value, r, c)`
    pub merges: Vec<(u16, usize, usize)>,
}

pub struct Board {
    pub cells: [[u16; SIZE]; SIZE],
    pub score: u32,
}

// ---------------------------------------------------------------------------
// Model of one row
// ---------------------------------------------------------------------------

/// Non-empty tiles of `row[..n]` with their columns, left to right.
pub open spec fn tiles_upto(row: Seq<u16>, n: int) -> Seq<(u16, usize)>
    decreases n,
{
    if n <= 0 {
        seq![]
    } else {
        let rest = tiles_upto(row, n - 1);
        if row[n - 1] != 0 {
            rest.push((row[n - 1], (n - 1) as usize))
        } else {
            rest
        }
    }
}

pub open spec fn tiles(row: Seq<u16>) -> Seq<(u16, usize)> {
    tiles_upto(row, 4)
}

/// Greedy pairing of equal neighbours from the left: `(value, column of the
/// first tile, column of the second tile when two merge)`.
pub open spec fn groups<V, P>(t: Seq<(V, P)>) -> Seq<(V, P, Option<P>)>
    decreases t.len(),
{
    if t.len() == 0 {
        seq![]
    } else if t.len() >= 2 && t[0].0 == t[1].0 {
        seq![(t[0].0, t[0].1, Some(t[1].1))] + groups(t.skip(2))
    } else {
        seq![(t[0].0, t[0].1, None::<P>)] + groups(t.skip(1))
    }
}

/// Value of a group once merged.
pub open spec fn group_value(g: (u16, usize, Option<usize>)) -> int {
    if g.2 is Some {
        2 * g.0
    } else {
        g.0 as int
    }
}

pub open spec fn row_groups(row: Seq<u16>) -> Seq<(u16, usize, Option<usize>)> {
    groups(tiles(row))
}

/// The row after sliding left.
pub open spec fn row_after(row: Seq<u16>) -> Seq<u16> {
    let g = row_groups(row);
    Seq::new(4, |j: int| if j < g.len() { group_value(g[j]) as u16 } else { 0u16 })
}

/// No merge of the row overflows a tile.
pub open spec fn merges_fit(row: Seq<u16>) -> bool {
    forall|j: int| 0 <= j < row_groups(row).len() ==> group_value(#[trigger] row_groups(row)[j]) <= u16::MAX
}

/// Score gained by the first `n` groups (the sum of the merged values).
pub open spec fn gain(g: Seq<(u16, usize, Option<usize>)>, n: int) -> int
    decreases n,
{
    if n <= 0 {
        0
    } else {
        gain(g, n - 1) + if g[n - 1].2 is Some {
            group_value(g[n - 1])
        } else {
            0
        }
    }
}

pub open spec fn row_gain(row: Seq<u16>) -> int {
    gain(row_groups(row), row_groups(row).len() as int)
}

/// Slides of the first tile of the first `n` groups that change column.
pub open spec fn first_slides(g: Seq<(u16, usize, Option<usize>)>, r: usize, n: int) -> Seq<
    (u16, usize, usize, usize, usize),
>
    decreases n,
{
    if n <= 0 {
        seq![]
    } else {
        first_slides(g, r, n - 1) + if g[n - 1].1 != (n - 1) as usize {
            seq![(g[n - 1].0, r, g[n - 1].1, r, (n - 1) as usize)]
        } else {
            seq![]
        }
    }
}

/// Slides of the second tile of the merged groups among the first `n`.
pub open spec fn second_slides(g: Seq<(u16, usize, Option<usize>)>, r: usize, n: int) -> Seq<
    (u16, usize, usize, usize, usize),
>
    decreases n,
{
    if n <= 0 {
        seq![]
    } else {
        second_slides(g, r, n - 1) + match g[n - 1].2 {
            Some(c2) => seq![(g[n - 1].0, r, c2, r, (n - 1) as usize)],
            None => seq![],
        }
    }
}

/// Merge records of the merged groups among the first `n`.
pub open spec fn merge_records(g: Seq<(u16, usize, Option<usize>)>, r: usize, n: int) -> Seq<
    (u16, usize, usize),
>
    decreases n,
{
    if n <= 0 {
        seq![]
    } else {
        merge_records(g, r, n - 1) + if g[n - 1].2 is Some {
            seq![(group_value(g[n - 1]) as u16, r, (n - 1) as usize)]
        } else {
            seq![]
        }
    }
}

pub open spec fn row_slides(row: Seq<u16>, r: usize) -> Seq<(u16, usize, usize, usize, usize)> {
    let g = row_groups(row);
    first_slides(g, r, g.len() as int) + second_slides(g, r, g.len() as int)
}

pub open spec fn row_merges(row: Seq<u16>, r: usize) -> Seq<(u16, usize, usize)> {
    let g = row_groups(row);
    merge_records(g, r, g.len() as int)
}

// ---------------------------------------------------------------------------
// Row lemmas
// ---------------------------------------------------------------------------

proof fn lemma_tiles_len(row: Seq<u16>, n: int)
    requires
        0 <= n,
    ensures
        tiles_upto(row, n).len() <= n,
        forall|k: int| 0 <= k < tiles_upto(row, n).len() ==> (#[trigger] tiles_upto(row, n)[k]).1 < n,
    decreases n,
{
    if n > 0 {
        lemma_tiles_len(row, n - 1);
    }
}

pub proof fn lemma_groups_len<V, P>(t: Seq<(V, P)>)
    ensures
        groups(t).len() <= t.len(),
    decreases t.len(),
{
    if t.len() >= 2 && t[0].0 == t[1].0 {
        lemma_groups_len(t.skip(2));
    } else if t.len() > 0 {
        lemma_groups_len(t.skip(1));
    }
}

pub proof fn lemma_row_groups_len(row: Seq<u16>)
    ensures
        row_groups(row).len() <= 4,
{
    lemma_tiles_len(row, 4);
    lemma_groups_len(tiles(row));
}

// ---------------------------------------------------------------------------
// Sliding one row
// ---------------------------------------------------------------------------

impl Board {
    /// Slides one row to the left and merges equal neighbours, recording the
    /// moves for the animation; returns whether the row changed.
    fn slide_row(
        row: &mut [u16; SIZE],
        row_idx: usize,
        slides: &mut Vec<(u16, usize, usize, usize, usize)>,
        merges: &mut Vec<(u16, usize, usize)>,
        score: &mut u32,
    ) -> (changed: bool)
        requires
            merges_fit(old(row)@),
            *old(score) + row_gain(old(row)@) <= u32::MAX,
        ensures
            final(row)@ == row_after(old(row)@),
            *final(score) == *old(score) + row_gain(old(row)@),
            final(slides)@ == old(slides)@ + row_slides(old(row)@, row_idx),
            final(merges)@ == old(merges)@ + row_merges(old(row)@, row_idx),
            changed == (final(row)@ != old(row)@),
    {
        let before = *row;
        let ghost r0 = row@;
        // 1) the non-empty tiles, with their columns
        let mut tiles: Vec<(u16, usize)> = Vec::new();
        let mut c: usize = 0;
        while c < SIZE
            invariant
                c <= 4,
                row@ == r0,
                tiles@ == tiles_upto(r0, c as int),
            decreases 4 - c,
        {
            if row[c] != 0 {
                tiles.push((row[c], c));
            }
            c += 1;
        }
        // 2) greedy pairing from the left
        assert(tiles@.skip(0) =~= tiles@);
        let mut groups_v: Vec<(u16, usize, Option<usize>)> = Vec::new();
        let mut k: usize = 0;
        while k < tiles.len()
            invariant
                k <= tiles@.len(),
                tiles@ == self::tiles(r0),
                groups_v@ + groups(tiles@.skip(k as int)) == groups(tiles@),
            decreases tiles.len() - k,
        {
            let (v, col) = tiles[k];
            let mut paired = false;
            if k + 1 < tiles.len() {
                if tiles[k + 1].0 == v {
                    paired = true;
                }
            }
            let ghost rest = tiles@.skip(k as int);
            if paired {
                groups_v.push((v, col, Some(tiles[k + 1].1)));
                assert(rest.skip(2) =~= tiles@.skip(k + 2));
                assert(groups_v@ + groups(tiles@.skip(k + 2)) =~= groups(tiles@));
                k += 2;
            } else {
                groups_v.push((v, col, None));
                assert(rest.skip(1) =~= tiles@.skip(k + 1));
                assert(groups_v@ + groups(tiles@.skip(k + 1)) =~= groups(tiles@));
                k += 1;
            }
        }
        assert(tiles@.skip(tiles@.len() as int) =~= Seq::<(u16, usize)>::empty());
        assert(groups_v@ =~= row_groups(r0));
        proof {
            lemma_row_groups_len(r0);
        }
        let ghost g = groups_v@;
        // 3) the packed row and the score
        let mut result: [u16; SIZE] = [0; SIZE];
        let mut j: usize = 0;
        while j < groups_v.len()
            invariant
                j <= g.len(),
                g.len() <= 4,
                groups_v@ == g,
                g == row_groups(r0),
                merges_fit(r0),
                *old(score) + row_gain(r0) <= u32::MAX,
                *score == *old(score) + gain(g, j as int),
                forall|i: int| 0 <= i < 4 ==> #[trigger] result@[i] == if i < j {
                    group_value(g[i]) as u16
                } else {
                    0u16
                },
            decreases g.len() - j,
        {
            let (v, _, second) = groups_v[j];
            assert(group_value(g[j as int]) <= u16::MAX);
            proof {
                lemma_gain_monotone(g, j as int + 1, g.len() as int);
            }
            if second.is_some() {
                result[j] = v * 2;
                *score = *score + (v as u32) * 2;
            } else {
                result[j] = v;
            }
            j += 1;
        }
        assert(result@ =~= row_after(r0));
        // 4) first tiles that change column
        let ghost s0 = slides@;
        let mut j: usize = 0;
        while j < groups_v.len()
            invariant
                j <= g.len(),
                groups_v@ == g,
                slides@ == s0 + first_slides(g, row_idx, j as int),
            decreases g.len() - j,
        {
            let (v, col, _) = groups_v[j];
            if col != j {
                slides.push((v, row_idx, col, row_idx, j));
            }
            assert(slides@ =~= s0 + first_slides(g, row_idx, j + 1));
            j += 1;
        }
        // 5) second tiles of the merged groups
        let ghost s1 = slides@;
        let mut j: usize = 0;
        while j < groups_v.len()
            invariant
                j <= g.len(),
                groups_v@ == g,
                slides@ == s1 + second_slides(g, row_idx, j as int),
            decreases g.len() - j,
        {
            let (v, _, second) = groups_v[j];
            if let Some(c2) = second {
                slides.push((v, row_idx, c2, row_idx, j));
            }
            assert(slides@ =~= s1 + second_slides(g, row_idx, j + 1));
            j += 1;
        }
        assert(slides@ =~= s0 + row_slides(r0, row_idx));
        // 6) merge records
        let ghost m0 = merges@;
        let mut j: usize = 0;
        while j < groups_v.len()
            invariant
                j <= g.len(),
                groups_v@ == g,
                merges_fit(r0),
                g == row_groups(r0),
                merges@ == m0 + merge_records(g, row_idx, j as int),
            decreases g.len() - j,
        {
            let (v, _, second) = groups_v[j];
            if second.is_some() {
                assert(group_value(g[j as int]) <= u16::MAX);
                merges.push((v * 2, row_idx, j));
            }
            assert(merges@ =~= m0 + merge_records(g, row_idx, j + 1));
            j += 1;
        }
        *row = result;
        let mut changed = false;
        let mut c: usize = 0;
        while c < SIZE
            invariant
                c <= 4,
                row@ == row_after(r0),
                before@ == r0,
                changed == exists|i: int| 0 <= i < c && row@[i] != r0[i],
            decreases 4 - c,
        {
            if row[c] != before[c] {
                changed = true;
            }
            c += 1;
        }
        proof {
            if !changed {
                assert(row@ =~= r0);
            }
        }
        changed
    }
}

/// Partial gains grow with the number of groups.
proof fn lemma_gain_monotone(g: Seq<(u16, usize, Option<usize>)>, m: int, n: int)
    requires
        0 <= m <= n <= g.len(),
    ensures
        gain(g, m) <= gain(g, n),
        gain(g, m) >= 0,
    decreases n,
{
    if n > m {
        lemma_gain_monotone(g, m, n - 1);
    } else {
        lemma_gain_nonneg(g, m);
    }
}

proof fn lemma_gain_nonneg(g: Seq<(u16, usize, Option<usize>)>, n: int)
    ensures
        gain(g, n) >= 0,
    decreases n,
{
    if n > 0 {
        lemma_gain_nonneg(g, n - 1);
    }
}

// ---------------------------------------------------------------------------
// Model of the board
// ---------------------------------------------------------------------------

/// The cells as a sequence of rows.
pub open spec fn grid(cells: [[u16; SIZE]; SIZE]) -> Seq<Seq<u16>> {
    Seq::new(4, |r: int| cells@[r]@)
}

/// Every row slid left.
pub open spec fn left_grid(g: Seq<Seq<u16>>) -> Seq<Seq<u16>> {
    Seq::new(4, |r: int| row_after(g[r]))
}

/// Clockwise quarter turn: `(r, c)` goes to `(c, 3 - r)`.
pub open spec fn rotated(g: Seq<Seq<u16>>) -> Seq<Seq<u16>> {
    Seq::new(4, |i: int| Seq::new(4, |j: int| g[3 - j][i]))
}

pub open spec fn grid_fits(g: Seq<Seq<u16>>) -> bool {
    forall|r: int| 0 <= r < 4 ==> merges_fit(#[trigger] g[r])
}

/// Score gained by sliding the first `n` rows left.
pub open spec fn grid_gain(g: Seq<Seq<u16>>, n: int) -> int
    decreases n,
{
    if n <= 0 {
        0
    } else {
        grid_gain(g, n - 1) + row_gain(g[n - 1])
    }
}

pub open spec fn grid_slides(g: Seq<Seq<u16>>, n: int) -> Seq<(u16, usize, usize, usize, usize)>
    decreases n,
{
    if n <= 0 {
        seq![]
    } else {
        grid_slides(g, n - 1) + row_slides(g[n - 1], (n - 1) as usize)
    }
}

pub open spec fn grid_merges(g: Seq<Seq<u16>>, n: int) -> Seq<(u16, usize, usize)>
    decreases n,
{
    if n <= 0 {
        seq![]
    } else {
        grid_merges(g, n - 1) + row_merges(g[n - 1], (n - 1) as usize)
    }
}

/// A slide or a merge record lies on the board.
pub open spec fn slide_on_board(t: (u16, usize, usize, usize, usize)) -> bool {
    t.1 < 4 && t.2 < 4 && t.3 < 4 && t.4 < 4
}

pub open spec fn merge_on_board(t: (u16, usize, usize)) -> bool {
    t.1 < 4 && t.2 < 4
}

/// Records mapped back through a half turn.
pub open spec fn half_turn_slide(t: (u16, usize, usize, usize, usize)) -> (u16, usize, usize, usize, usize) {
    (t.0, (3 - t.1) as usize, (3 - t.2) as usize, (3 - t.3) as usize, (3 - t.4) as usize)
}

pub open spec fn half_turn_merge(t: (u16, usize, usize)) -> (u16, usize, usize) {
    (t.0, (3 - t.1) as usize, (3 - t.2) as usize)
}

/// Records mapped back after three quarter turns: `(r, c)` to `(c, 3 - r)`.
pub open spec fn three_turns_slide(t: (u16, usize, usize, usize, usize)) -> (u16, usize, usize, usize, usize) {
    (t.0, t.2, (3 - t.1) as usize, t.4, (3 - t.3) as usize)
}

pub open spec fn three_turns_merge(t: (u16, usize, usize)) -> (u16, usize, usize) {
    (t.0, t.2, (3 - t.1) as usize)
}

/// Records mapped back after one quarter turn: `(r, c)` to `(3 - c, r)`.
pub open spec fn one_turn_slide(t: (u16, usize, usize, usize, usize)) -> (u16, usize, usize, usize, usize) {
    (t.0, (3 - t.2) as usize, t.1, (3 - t.4) as usize, t.3)
}

pub open spec fn one_turn_merge(t: (u16, usize, usize)) -> (u16, usize, usize) {
    (t.0, (3 - t.2) as usize, t.1)
}

/// Some cell is empty or two neighbours are equal.
pub open spec fn movable(g: Seq<Seq<u16>>) -> bool {
    ||| exists|r: int, c: int| 0 <= r < 4 && 0 <= c < 4 && #[trigger] g[r][c] == 0
    ||| exists|r: int, c: int| 0 <= r < 4 && 0 <= c < 3 && #[trigger] g[r][c] == g[r][c + 1]
    ||| exists|r: int, c: int| 0 <= r < 3 && 0 <= c < 4 && #[trigger] g[r][c] == g[r + 1][c]
}

// ---------------------------------------------------------------------------
// Record bounds
// ---------------------------------------------------------------------------

proof fn lemma_groups_cols(t: Seq<(u16, usize)>)
    requires
        forall|k: int| 0 <= k < t.len() ==> (#[trigger] t[k]).1 < 4,
    ensures
        forall|k: int|
            0 <= k < groups(t).len() ==> (#[trigger] groups(t)[k]).1 < 4 && (groups(t)[k].2 matches Some(
                c,
            ) ==> c < 4),
    decreases t.len(),
{
    if t.len() >= 2 && t[0].0 == t[1].0 {
        let u = t.skip(2);
        assert forall|k: int| 0 <= k < u.len() implies (#[trigger] u[k]).1 < 4 by {
            assert(u[k] == t[k + 2]);
        }
        lemma_groups_cols(u);
        assert(t[0].1 < 4 && t[1].1 < 4);
    } else if t.len() > 0 {
        let u = t.skip(1);
        assert forall|k: int| 0 <= k < u.len() implies (#[trigger] u[k]).1 < 4 by {
            assert(u[k] == t[k + 1]);
        }
        lemma_groups_cols(u);
        assert(t[0].1 < 4);
    }
}

proof fn lemma_row_records_on_board(row: Seq<u16>, r: usize)
    requires
        r < 4,
    ensures
        forall|k: int| 0 <= k < row_slides(row, r).len() ==> slide_on_board(#[trigger] row_slides(row, r)[k]),
        forall|k: int| 0 <= k < row_merges(row, r).len() ==> merge_on_board(#[trigger] row_merges(row, r)[k]),
{
    lemma_tiles_len(row, 4);
    lemma_groups_cols(tiles(row));
    lemma_row_groups_len(row);
    let g = row_groups(row);
    lemma_first_slides_on_board(g, r, g.len() as int);
    lemma_second_slides_on_board(g, r, g.len() as int);
    lemma_merge_records_on_board(g, r, g.len() as int);
}

proof fn lemma_first_slides_on_board(g: Seq<(u16, usize, Option<usize>)>, r: usize, n: int)
    requires
        r < 4,
        n <= g.len() <= 4,
        forall|k: int| 0 <= k < g.len() ==> (#[trigger] g[k]).1 < 4 && (g[k].2 matches Some(c) ==> c < 4),
    ensures
        forall|k: int| 0 <= k < first_slides(g, r, n).len() ==> slide_on_board(#[trigger] first_slides(g, r, n)[k]),
    decreases n,
{
    if n > 0 {
        lemma_first_slides_on_board(g, r, n - 1);
        let a = first_slides(g, r, n - 1);
        let all = first_slides(g, r, n);
        assert forall|k: int| 0 <= k < all.len() implies slide_on_board(#[trigger] all[k]) by {
            if k < a.len() {
                assert(all[k] == a[k]);
            } else {
                assert(g[n - 1].1 < 4);
            }
        }
    }
}

proof fn lemma_second_slides_on_board(g: Seq<(u16, usize, Option<usize>)>, r: usize, n: int)
    requires
        r < 4,
        n <= g.len() <= 4,
        forall|k: int| 0 <= k < g.len() ==> (#[trigger] g[k]).1 < 4 && (g[k].2 matches Some(c) ==> c < 4),
    ensures
        forall|k: int| 0 <= k < second_slides(g, r, n).len() ==> slide_on_board(#[trigger] second_slides(g, r, n)[k]),
    decreases n,
{
    if n > 0 {
        lemma_second_slides_on_board(g, r, n - 1);
        let a = second_slides(g, r, n - 1);
        let all = second_slides(g, r, n);
        assert forall|k: int| 0 <= k < all.len() implies slide_on_board(#[trigger] all[k]) by {
            if k < a.len() {
                assert(all[k] == a[k]);
            } else {
                assert(g[n - 1].2 is Some);
            }
        }
    }
}

proof fn lemma_merge_records_on_board(g: Seq<(u16, usize, Option<usize>)>, r: usize, n: int)
    requires
        r < 4,
        n <= g.len() <= 4,
    ensures
        forall|k: int| 0 <= k < merge_records(g, r, n).len() ==> merge_on_board(#[trigger] merge_records(g, r, n)[k]),
    decreases n,
{
    if n > 0 {
        lemma_merge_records_on_board(g, r, n - 1);
        let a = merge_records(g, r, n - 1);
        let all = merge_records(g, r, n);
        assert forall|k: int| 0 <= k < all.len() implies merge_on_board(#[trigger] all[k]) by {
            if k < a.len() {
                assert(all[k] == a[k]);
            }
        }
    }
}

proof fn lemma_grid_records_on_board(g: Seq<Seq<u16>>, n: int)
    requires
        n <= 4,
    ensures
        forall|k: int| 0 <= k < grid_slides(g, n).len() ==> slide_on_board(#[trigger] grid_slides(g, n)[k]),
        forall|k: int| 0 <= k < grid_merges(g, n).len() ==> merge_on_board(#[trigger] grid_merges(g, n)[k]),
    decreases n,
{
    if n > 0 {
        lemma_grid_records_on_board(g, n - 1);
        lemma_row_records_on_board(g[n - 1], (n - 1) as usize);
        let a = grid_slides(g, n - 1);
        let b = row_slides(g[n - 1], (n - 1) as usize);
        assert forall|k: int| 0 <= k < grid_slides(g, n).len() implies slide_on_board(#[trigger] grid_slides(g, n)[k]) by {
            if k < a.len() {
                assert(grid_slides(g, n)[k] == a[k]);
            } else {
                assert(grid_slides(g, n)[k] == b[k - a.len()]);
            }
        }
        let c = grid_merges(g, n - 1);
        let d = row_merges(g[n - 1], (n - 1) as usize);
        assert forall|k: int| 0 <= k < grid_merges(g, n).len() implies merge_on_board(#[trigger] grid_merges(g, n)[k]) by {
            if k < c.len() {
                assert(grid_merges(g, n)[k] == c[k]);
            } else {
                assert(grid_merges(g, n)[k] == d[k - c.len()]);
            }
        }
    }
}

proof fn lemma_grid_gain_monotone(g: Seq<Seq<u16>>, m: int, n: int)
    requires
        0 <= m <= n,
    ensures
        0 <= grid_gain(g, m) <= grid_gain(g, n),
    decreases n,
{
    if n > m {
        lemma_grid_gain_monotone(g, m, n - 1);
        let rg = row_groups(g[n - 1]);
        lemma_gain_nonneg(rg, rg.len() as int);
    } else {
        lemma_grid_gain_nonneg(g, m);
    }
}

proof fn lemma_grid_gain_nonneg(g: Seq<Seq<u16>>, n: int)
    ensures
        grid_gain(g, n) >= 0,
    decreases n,
{
    if n > 0 {
        lemma_grid_gain_nonneg(g, n - 1);
        let rg = row_groups(g[n - 1]);
        lemma_gain_nonneg(rg, rg.len() as int);
    }
}

// ---------------------------------------------------------------------------
// Board operations
// ---------------------------------------------------------------------------

impl Board {
    /// Slides the whole board left.
    pub fn slide_left(&mut self) -> (r: (bool, SlideInfo))
        requires
            grid_fits(grid(old(self).cells)),
            old(self).score + grid_gain(grid(old(self).cells), 4) <= u32::MAX,
        ensures
            grid(final(self).cells) == left_grid(grid(old(self).cells)),
            final(self).score == old(self).score + grid_gain(grid(old(self).cells), 4),
            r.1.slides@ == grid_slides(grid(old(self).cells), 4),
            r.1.merges@ == grid_merges(grid(old(self).cells), 4),
            r.0 == (grid(final(self).cells) != grid(old(self).cells)),
    {
        let ghost g = grid(self.cells);
        let mut slides: Vec<(u16, usize, usize, usize, usize)> = Vec::new();
        let mut merges: Vec<(u16, usize, usize)> = Vec::new();
        let mut moved = false;
        let mut r: usize = 0;
        while r < SIZE
            invariant
                r <= 4,
                grid_fits(g),
                old(self).score + grid_gain(g, 4) <= u32::MAX,
                g == grid(old(self).cells),
                forall|i: int| 0 <= i < 4 ==> #[trigger] self.cells@[i]@ == if i < r {
                    row_after(g[i])
                } else {
                    g[i]
                },
                self.score == old(self).score + grid_gain(g, r as int),
                slides@ == grid_slides(g, r as int),
                merges@ == grid_merges(g, r as int),
                moved == exists|i: int| 0 <= i < r && row_after(g[i]) != g[i],
            decreases 4 - r,
        {
            let mut row = self.cells[r];
            assert(row@ == g[r as int]);
            assert(merges_fit(g[r as int]));
            proof {
                lemma_grid_gain_monotone(g, r + 1, 4);
            }
            let changed = Self::slide_row(&mut row, r, &mut slides, &mut merges, &mut self.score);
            self.cells[r] = row;
            if changed {
                moved = true;
            }
            r += 1;
        }
        assert(grid(self.cells) =~= left_grid(g));
        proof {
            if !moved {
                assert forall|i: int| 0 <= i < 4 implies #[trigger] grid(self.cells)[i] == g[i] by {
                    assert(row_after(g[i]) == g[i]);
                }
                assert(grid(self.cells) =~= g);
            } else {
                let i = choose|i: int| 0 <= i < 4 && row_after(g[i]) != g[i];
                assert(grid(self.cells)[i] != g[i]);
            }
        }
        (moved, SlideInfo { slides, merges })
    }

    /// Turns the board a quarter clockwise.
    fn rotate(&mut self)
        ensures
            grid(final(self).cells) == rotated(grid(old(self).cells)),
            final(self).score == old(self).score,
    {
        let ghost src = self.cells;
        let mut rotated_cells: [[u16; SIZE]; SIZE] = [[0; SIZE]; SIZE];
        let mut r: usize = 0;
        while r < SIZE
            invariant
                r <= 4,
                self.cells == src,
                src == old(self).cells,
                forall|i: int, j: int|
                    0 <= i < 4 && 0 <= j < 4 ==> #[trigger] rotated_cells@[i]@[j] == if 3 - j < r {
                        self.cells@[3 - j]@[i]
                    } else {
                        0
                    },
            decreases 4 - r,
        {
            let mut c: usize = 0;
            while c < SIZE
                invariant
                    r < 4,
                    c <= 4,
                    self.cells == src,
                    forall|i: int, j: int|
                        0 <= i < 4 && 0 <= j < 4 ==> #[trigger] rotated_cells@[i]@[j] == if 3 - j < r || (
                        3 - j == r && i < c) {
                            self.cells@[3 - j]@[i]
                        } else {
                            0
                        },
                decreases 4 - c,
            {
                let mut col = rotated_cells[c];
                col[SIZE - 1 - r] = self.cells[r][c];
                rotated_cells[c] = col;
                c += 1;
            }
            r += 1;
        }
        self.cells = rotated_cells;
        assert forall|i: int| 0 <= i < 4 implies #[trigger] grid(self.cells)[i] =~= rotated(
            grid(old(self).cells),
        )[i] by {
            assert forall|j: int| 0 <= j < 4 implies #[trigger] grid(self.cells)[i][j] == rotated(
                grid(old(self).cells),
            )[i][j] by {
                assert(rotated_cells@[i]@[j] == src@[3 - j]@[i]);
            }
        }
        assert(grid(self.cells) =~= rotated(grid(old(self).cells)));
    }
}

/// Some cell is empty.
pub open spec fn has_empty(g: Seq<Seq<u16>>) -> bool {
    exists|r: int, c: int| 0 <= r < 4 && 0 <= c < 4 && #[trigger] g[r][c] == 0
}

/// `after` is `before` with one empty cell `(r, c)` now holding 2 or 4.
pub open spec fn spawned_at(before: Seq<Seq<u16>>, after: Seq<Seq<u16>>, r: int, c: int) -> bool {
    &&& 0 <= r < 4 && 0 <= c < 4
    &&& before[r][c] == 0
    &&& (after[r][c] == 2 || after[r][c] == 4)
    &&& forall|i: int, j: int|
        0 <= i < 4 && 0 <= j < 4 && (i != r || j != c) ==> #[trigger] after[i][j] == before[i][j]
}

/// Exactly the two distinct cells `(r1, c1)` and `(r2, c2)` hold a tile, a 2
/// or a 4.
pub open spec fn two_tiles(g: Seq<Seq<u16>>, r1: int, c1: int, r2: int, c2: int) -> bool {
    &&& 0 <= r1 < 4 && 0 <= c1 < 4 && 0 <= r2 < 4 && 0 <= c2 < 4
    &&& (r1 != r2 || c1 != c2)
    &&& (g[r1][c1] == 2 || g[r1][c1] == 4)
    &&& (g[r2][c2] == 2 || g[r2][c2] == 4)
    &&& forall|i: int, j: int|
        0 <= i < 4 && 0 <= j < 4 && (i != r1 || j != c1) && (i != r2 || j != c2) ==> #[trigger] g[i][j]
            == 0
}

pub open spec fn has_tile(g: Seq<Seq<u16>>, v: u16) -> bool {
    exists|r: int, c: int| 0 <= r < 4 && 0 <= c < 4 && #[trigger] g[r][c] == v
}

/// Maps each slide record through `f` (exec side of the coordinate change).
fn map_slides(
    src: &Vec<(u16, usize, usize, usize, usize)>,
    turns: u8,
) -> (out: Vec<(u16, usize, usize, usize, usize)>)
    requires
        turns == 1 || turns == 2 || turns == 3,
        forall|k: int| 0 <= k < src@.len() ==> slide_on_board(#[trigger] src@[k]),
    ensures
        turns == 2 ==> out@ == src@.map_values(|t| half_turn_slide(t)),
        turns == 3 ==> out@ == src@.map_values(|t| three_turns_slide(t)),
        turns == 1 ==> out@ == src@.map_values(|t| one_turn_slide(t)),
{
    let mut out: Vec<(u16, usize, usize, usize, usize)> = Vec::new();
    let mut i: usize = 0;
    while i < src.len()
        invariant
            i <= src@.len(),
            turns == 1 || turns == 2 || turns == 3,
            forall|k: int| 0 <= k < src@.len() ==> slide_on_board(#[trigger] src@[k]),
            turns == 2 ==> out@ == src@.take(i as int).map_values(|t| half_turn_slide(t)),
            turns == 3 ==> out@ == src@.take(i as int).map_values(|t| three_turns_slide(t)),
            turns == 1 ==> out@ == src@.take(i as int).map_values(|t| one_turn_slide(t)),
        decreases src.len() - i,
    {
        let (v, r, c, tr, tc) = src[i];
        assert(slide_on_board(src@[i as int]));
        if turns == 2 {
            out.push((v, SIZE - 1 - r, SIZE - 1 - c, SIZE - 1 - tr, SIZE - 1 - tc));
        } else if turns == 3 {
            out.push((v, c, SIZE - 1 - r, tc, SIZE - 1 - tr));
        } else {
            out.push((v, SIZE - 1 - c, r, SIZE - 1 - tc, tr));
        }
        assert(src@.take(i + 1) =~= src@.take(i as int).push(src@[i as int]));
        i += 1;
    }
    assert(src@.take(src@.len() as int) =~= src@);
    out
}

fn map_merges(src: &Vec<(u16, usize, usize)>, turns: u8) -> (out: Vec<(u16, usize, usize)>)
    requires
        turns == 1 || turns == 2 || turns == 3,
        forall|k: int| 0 <= k < src@.len() ==> merge_on_board(#[trigger] src@[k]),
    ensures
        turns == 2 ==> out@ == src@.map_values(|t| half_turn_merge(t)),
        turns == 3 ==> out@ == src@.map_values(|t| three_turns_merge(t)),
        turns == 1 ==> out@ == src@.map_values(|t| one_turn_merge(t)),
{
    let mut out: Vec<(u16, usize, usize)> = Vec::new();
    let mut i: usize = 0;
    while i < src.len()
        invariant
            i <= src@.len(),
            turns == 1 || turns == 2 || turns == 3,
            forall|k: int| 0 <= k < src@.len() ==> merge_on_board(#[trigger] src@[k]),
            turns == 2 ==> out@ == src@.take(i as int).map_values(|t| half_turn_merge(t)),
            turns == 3 ==> out@ == src@.take(i as int).map_values(|t| three_turns_merge(t)),
            turns == 1 ==> out@ == src@.take(i as int).map_values(|t| one_turn_merge(t)),
        decreases src.len() - i,
    {
        let (v, r, c) = src[i];
        assert(merge_on_board(src@[i as int]));
        if turns == 2 {
            out.push((v, SIZE - 1 - r, SIZE - 1 - c));
        } else if turns == 3 {
            out.push((v, c, SIZE - 1 - r));
        } else {
            out.push((v, SIZE - 1 - c, r));
        }
        assert(src@.take(i + 1) =~= src@.take(i as int).push(src@[i as int]));
        i += 1;
    }
    assert(src@.take(src@.len() as int) =~= src@);
    out
}

impl Board {
    /// Slides the whole board right (a half turn, a left slide, a half turn
    /// back); the records are given in the coordinates of the board itself.
    pub fn slide_right(&mut self) -> (r: (bool, SlideInfo))
        requires
            grid_fits(rotated(rotated(grid(old(self).cells)))),
            old(self).score + grid_gain(rotated(rotated(grid(old(self).cells))), 4) <= u32::MAX,
        ensures
            grid(final(self).cells) == rotated(rotated(left_grid(rotated(rotated(grid(old(self).cells)))))),
            final(self).score == old(self).score + grid_gain(rotated(rotated(grid(old(self).cells))), 4),
            r.1.slides@ == grid_slides(rotated(rotated(grid(old(self).cells))), 4).map_values(
                |t| half_turn_slide(t),
            ),
            r.1.merges@ == grid_merges(rotated(rotated(grid(old(self).cells))), 4).map_values(
                |t| half_turn_merge(t),
            ),
            r.0 == (left_grid(rotated(rotated(grid(old(self).cells)))) != rotated(rotated(grid(old(self).cells)))),
    {
        self.rotate();
        self.rotate();
        let ghost h = grid(self.cells);
        let (moved, info) = self.slide_left();
        self.rotate();
        self.rotate();
        proof {
            lemma_grid_records_on_board(h, 4);
        }
        let slides = map_slides(&info.slides, 2);
        let merges = map_merges(&info.merges, 2);
        (moved, SlideInfo { slides, merges })
    }

    /// Slides the whole board up (three quarter turns, a left slide, one
    /// quarter turn back).
    pub fn slide_up(&mut self) -> (r: (bool, SlideInfo))
        requires
            grid_fits(rotated(rotated(rotated(grid(old(self).cells))))),
            old(self).score + grid_gain(rotated(rotated(rotated(grid(old(self).cells)))), 4) <= u32::MAX,
        ensures
            grid(final(self).cells) == rotated(left_grid(rotated(rotated(rotated(grid(old(self).cells)))))),
            final(self).score == old(self).score + grid_gain(rotated(rotated(rotated(grid(old(self).cells)))), 4),
            r.1.slides@ == grid_slides(rotated(rotated(rotated(grid(old(self).cells)))), 4).map_values(
                |t| three_turns_slide(t),
            ),
            r.1.merges@ == grid_merges(rotated(rotated(rotated(grid(old(self).cells)))), 4).map_values(
                |t| three_turns_merge(t),
            ),
            r.0 == (left_grid(rotated(rotated(rotated(grid(old(self).cells))))) != rotated(
                rotated(rotated(grid(old(self).cells))),
            )),
    {
        self.rotate();
        self.rotate();
        self.rotate();
        let ghost h = grid(self.cells);
        let (moved, info) = self.slide_left();
        self.rotate();
        proof {
            lemma_grid_records_on_board(h, 4);
        }
        let slides = map_slides(&info.slides, 3);
        let merges = map_merges(&info.merges, 3);
        (moved, SlideInfo { slides, merges })
    }

    /// Slides the whole board down (one quarter turn, a left slide, three
    /// quarter turns back).
    pub fn slide_down(&mut self) -> (r: (bool, SlideInfo))
        requires
            grid_fits(rotated(grid(old(self).cells))),
            old(self).score + grid_gain(rotated(grid(old(self).cells)), 4) <= u32::MAX,
        ensures
            grid(final(self).cells) == rotated(rotated(rotated(left_grid(rotated(grid(old(self).cells)))))),
            final(self).score == old(self).score + grid_gain(rotated(grid(old(self).cells)), 4),
            r.1.slides@ == grid_slides(rotated(grid(old(self).cells)), 4).map_values(
                |t| one_turn_slide(t),
            ),
            r.1.merges@ == grid_merges(rotated(grid(old(self).cells)), 4).map_values(
                |t| one_turn_merge(t),
            ),
            r.0 == (left_grid(rotated(grid(old(self).cells))) != rotated(grid(old(self).cells))),
    {
        self.rotate();
        let ghost h = grid(self.cells);
        let (moved, info) = self.slide_left();
        self.rotate();
        self.rotate();
        self.rotate();
        proof {
            lemma_grid_records_on_board(h, 4);
        }
        let slides = map_slides(&info.slides, 1);
        let merges = map_merges(&info.merges, 1);
        (moved, SlideInfo { slides, merges })
    }

    /// Whether any move is left: an empty cell or two equal neighbours.
    pub fn can_move(&self) -> (r: bool)
        ensures
            r == movable(grid(self.cells)),
    {
        let ghost g = grid(self.cells);
        let mut r: usize = 0;
        while r < SIZE
            invariant
                r <= 4,
                g == grid(self.cells),
                forall|i: int, j: int| 0 <= i < r && 0 <= j < 4 ==> #[trigger] g[i][j] != 0,
            decreases 4 - r,
        {
            let mut c: usize = 0;
            while c < SIZE
                invariant
                    r < 4,
                    c <= 4,
                    g == grid(self.cells),
                    forall|i: int, j: int| 0 <= i < r && 0 <= j < 4 ==> #[trigger] g[i][j] != 0,
                    forall|j: int| 0 <= j < c ==> #[trigger] g[r as int][j] != 0,
                decreases 4 - c,
            {
                if self.cells[r][c] == 0 {
                    assert(g[r as int][c as int] == 0);
                    return true;
                }
                c += 1;
            }
            r += 1;
        }
        let mut r: usize = 0;
        while r < SIZE
            invariant
                r <= 4,
                g == grid(self.cells),
                forall|i: int, j: int| 0 <= i < 4 && 0 <= j < 4 ==> #[trigger] g[i][j] != 0,
                forall|i: int, j: int| 0 <= i < r && 0 <= j < 3 ==> #[trigger] g[i][j] != g[i][j + 1],
                forall|i: int, j: int| 0 <= i < r && i < 3 && 0 <= j < 4 ==> #[trigger] g[i][j] != g[i + 1][j],
            decreases 4 - r,
        {
            let mut c: usize = 0;
            while c < SIZE
                invariant
                    r < 4,
                    c <= 4,
                    g == grid(self.cells),
                    forall|i: int, j: int| 0 <= i < 4 && 0 <= j < 4 ==> #[trigger] g[i][j] != 0,
                    forall|i: int, j: int| 0 <= i < r && 0 <= j < 3 ==> #[trigger] g[i][j] != g[i][j + 1],
                    forall|i: int, j: int| 0 <= i < r && i < 3 && 0 <= j < 4 ==> #[trigger] g[i][j] != g[i + 1][j],
                    forall|j: int| 0 <= j < c && j < 3 ==> #[trigger] g[r as int][j] != g[r as int][j + 1],
                    forall|j: int| 0 <= j < c && r < 3 ==> #[trigger] g[r as int][j] != g[r + 1][j],
                decreases 4 - c,
            {
                let val = self.cells[r][c];
                if c + 1 < SIZE && val == self.cells[r][c + 1] {
                    assert(g[r as int][c as int] == g[r as int][c + 1]);
                    return true;
                }
                if r + 1 < SIZE && val == self.cells[r + 1][c] {
                    assert(g[r as int][c as int] == g[r + 1][c as int]);
                    return true;
                }
                c += 1;
            }
            r += 1;
        }
        false
    }

    /// A 2048 tile is on the board.
    pub fn has_won(&self) -> (r: bool)
        ensures
            r == has_tile(grid(self.cells), 2048),
    {
        let ghost g = grid(self.cells);
        let mut r: usize = 0;
        while r < SIZE
            invariant
                r <= 4,
                g == grid(self.cells),
                forall|i: int, j: int| 0 <= i < r && 0 <= j < 4 ==> #[trigger] g[i][j] != 2048,
            decreases 4 - r,
        {
            let mut c: usize = 0;
            while c < SIZE
                invariant
                    r < 4,
                    c <= 4,
                    g == grid(self.cells),
                    forall|i: int, j: int| 0 <= i < r && 0 <= j < 4 ==> #[trigger] g[i][j] != 2048,
                    forall|j: int| 0 <= j < c ==> #[trigger] g[r as int][j] != 2048,
                decreases 4 - c,
            {
                if self.cells[r][c] == 2048 {
                    assert(g[r as int][c as int] == 2048);
                    return true;
                }
                c += 1;
            }
            r += 1;
        }
        false
    }

    /// Puts a 2 (nine times in ten) or a 4 on a random empty cell; does
    /// nothing when the board is full.
    pub fn add_random_tile(&mut self)
        ensures
            final(self).score == old(self).score,
            !has_empty(grid(old(self).cells)) ==> final(self).cells == old(self).cells,
            has_empty(grid(old(self).cells)) ==> exists|r: int, c: int|
                spawned_at(grid(old(self).cells), grid(final(self).cells), r, c),
    {
        let ghost g = grid(self.cells);
        let mut empty: Vec<(usize, usize)> = Vec::new();
        let mut r: usize = 0;
        while r < SIZE
            invariant
                r <= 4,
                g == grid(self.cells),
                forall|k: int| 0 <= k < empty@.len() ==> {
                    let (a, b) = #[trigger] empty@[k];
                    a < 4 && b < 4 && g[a as int][b as int] == 0
                },
                forall|i: int, j: int|
                    0 <= i < r && 0 <= j < 4 && #[trigger] g[i][j] == 0 ==> empty@.contains(
                        (i as usize, j as usize),
                    ),
            decreases 4 - r,
        {
            let mut c: usize = 0;
            while c < SIZE
                invariant
                    r < 4,
                    c <= 4,
                    g == grid(self.cells),
                    forall|k: int| 0 <= k < empty@.len() ==> {
                        let (a, b) = #[trigger] empty@[k];
                        a < 4 && b < 4 && g[a as int][b as int] == 0
                    },
                    forall|i: int, j: int|
                        0 <= i < r && 0 <= j < 4 && #[trigger] g[i][j] == 0 ==> empty@.contains(
                            (i as usize, j as usize),
                        ),
                    forall|j: int|
                        0 <= j < c && #[trigger] g[r as int][j] == 0 ==> empty@.contains(
                            (r, j as usize),
                        ),
                decreases 4 - c,
            {
                if self.cells[r][c] == 0 {
                    let ghost before = empty@;
                    empty.push((r, c));
                    proof {
                        crate::seq_facts::lemma_push_contains(before, (r, c));
                    }
                }
                c += 1;
            }
            r += 1;
        }
        proof {
            if has_empty(g) {
                let (i, j) = choose|i: int, j: int| 0 <= i < 4 && 0 <= j < 4 && #[trigger] g[i][j] == 0;
                assert(empty@.contains((i as usize, j as usize)));
            }
        }
        if let Some((r, c)) = choose_item(&empty) {
            proof {
                let k = choose|k: int| 0 <= k < empty@.len() && empty@[k] == (r, c);
                assert(empty@[k] == (r, c));
            }
            let value: u16 = if chance(9, 10) {
                2
            } else {
                4
            };
            let mut row = self.cells[r];
            row[c] = value;
            self.cells[r] = row;
            assert(spawned_at(g, grid(self.cells), r as int, c as int));
        } else {
            proof {
                if has_empty(g) {
                    let (i, j) = choose|i: int, j: int| 0 <= i < 4 && 0 <= j < 4 && #[trigger] g[i][j] == 0;
                    assert(empty@.contains((i as usize, j as usize)));
                }
            }
        }
    }

    /// A new game: an empty board with two random tiles and no score.
    pub fn new() -> (b: Board)
        ensures
            b.score == 0,
            exists|r1: int, c1: int, r2: int, c2: int| #[trigger] two_tiles(grid(b.cells), r1, c1, r2, c2),
    {
        let mut board = Board { cells: [[0; SIZE]; SIZE], score: 0 };
        let ghost g0 = grid(board.cells);
        assert(g0[0][0] == 0);
        board.add_random_tile();
        let ghost g1 = grid(board.cells);
        proof {
            let (r1, c1) = choose|r: int, c: int| spawned_at(g0, g1, r, c);
            if r1 == 0 && c1 == 0 {
                assert(g1[1][1] == 0);
            } else {
                assert(g1[0][0] == 0);
            }
        }
        board.add_random_tile();
        let ghost g2 = grid(board.cells);
        proof {
            let (r1, c1) = choose|r: int, c: int| spawned_at(g0, g1, r, c);
            let (r2, c2) = choose|r: int, c: int| spawned_at(g1, g2, r, c);
            assert(r1 != r2 || c1 != c2);
            assert(forall|i: int, j: int|
                0 <= i < 4 && 0 <= j < 4 && (i != r1 || j != c1) && (i != r2 || j != c2)
                    ==> #[trigger] g2[i][j] == g1[i][j] && g1[i][j] == g0[i][j]);
            assert(two_tiles(g2, r1, c1, r2, c2));
        }
        board
    }
}

} // verus!

verus! {

// ---------------------------------------------------------------------------
// Laws
// ---------------------------------------------------------------------------

/// Sum of the tiles of a row.
pub open spec fn row_sum(row: Seq<u16>) -> int {
    row[0] + row[1] + row[2] + row[3]
}

/// Sum of the tiles of a grid.
pub open spec fn grid_sum(g: Seq<Seq<u16>>) -> int {
    row_sum(g[0]) + row_sum(g[1]) + row_sum(g[2]) + row_sum(g[3])
}

/// A 4x4 grid.
pub open spec fn square(g: Seq<Seq<u16>>) -> bool {
    g.len() == 4 && forall|r: int| 0 <= r < 4 ==> (#[trigger] g[r]).len() == 4
}

spec fn tiles_sum(t: Seq<(u16, usize)>) -> int
    decreases t.len(),
{
    if t.len() == 0 {
        0
    } else {
        tiles_sum(t.drop_last()) + t.last().0
    }
}

spec fn groups_sum(g: Seq<(u16, usize, Option<usize>)>, n: int) -> int
    decreases n,
{
    if n <= 0 {
        0
    } else {
        groups_sum(g, n - 1) + group_value(g[n - 1])
    }
}

proof fn lemma_tiles_sum_front(t: Seq<(u16, usize)>)
    requires
        t.len() > 0,
    ensures
        tiles_sum(t) == t[0].0 + tiles_sum(t.skip(1)),
    decreases t.len(),
{
    if t.len() > 1 {
        lemma_tiles_sum_front(t.drop_last());
        assert(t.drop_last().skip(1) =~= t.skip(1).drop_last());
        assert(t.skip(1).last() == t.last());
        assert(t.drop_last()[0] == t[0]);
    } else {
        assert(t.skip(1) =~= Seq::<(u16, usize)>::empty());
        assert(t.drop_last() =~= Seq::<(u16, usize)>::empty());
    }
}

proof fn lemma_groups_sum_front(g: Seq<(u16, usize, Option<usize>)>, h: Seq<(u16, usize, Option<usize>)>)
    requires
        g.len() > 0,
        h =~= g.skip(1),
    ensures
        groups_sum(g, g.len() as int) == group_value(g[0]) + groups_sum(h, h.len() as int),
    decreases g.len(),
{
    if g.len() > 1 {
        let n = g.len() as int;
        let g2 = g.drop_last();
        lemma_groups_sum_front(g2, g2.skip(1));
        lemma_groups_sum_same(g, g2, n - 1);
        lemma_groups_sum_same(g2.skip(1), h, n - 2);
        assert(h.len() == n - 1);
        assert(h[n - 2] == g[n - 1]);
        assert(g2[0] == g[0]);
        assert(groups_sum(h, n - 1) == groups_sum(h, n - 2) + group_value(h[n - 2]));
        assert(groups_sum(g, n) == groups_sum(g, n - 1) + group_value(g[n - 1]));
    } else {
        assert(h.len() == 0);
        assert(groups_sum(g, 1) == groups_sum(g, 0) + group_value(g[0]));
    }
}

proof fn lemma_groups_sum_same(a: Seq<(u16, usize, Option<usize>)>, b: Seq<(u16, usize, Option<usize>)>, n: int)
    requires
        0 <= n <= a.len(),
        n <= b.len(),
        forall|k: int| 0 <= k < n ==> a[k] == b[k],
    ensures
        groups_sum(a, n) == groups_sum(b, n),
    decreases n,
{
    if n > 0 {
        lemma_groups_sum_same(a, b, n - 1);
    }
}

/// Grouping keeps the total: a pair merges into twice its value.
proof fn lemma_groups_keep_sum(t: Seq<(u16, usize)>)
    ensures
        groups_sum(groups(t), groups(t).len() as int) == tiles_sum(t),
    decreases t.len(),
{
    if t.len() == 0 {
    } else if t.len() >= 2 && t[0].0 == t[1].0 {
        let rest = t.skip(2);
        lemma_groups_keep_sum(rest);
        let g = groups(t);
        lemma_groups_sum_front(g, groups(rest));
        lemma_tiles_sum_front(t);
        lemma_tiles_sum_front(t.skip(1));
        assert(t.skip(1).skip(1) =~= rest);
    } else {
        let rest = t.skip(1);
        lemma_groups_keep_sum(rest);
        let g = groups(t);
        lemma_groups_sum_front(g, groups(rest));
        lemma_tiles_sum_front(t);
    }
}

/// The non-empty tiles of a row add up to the row.
proof fn lemma_tiles_sum_row(row: Seq<u16>, n: int)
    requires
        0 <= n <= 4,
    ensures
        tiles_sum(tiles_upto(row, n)) == (if n > 0 {
            row[0] as int
        } else {
            0
        }) + (if n > 1 {
            row[1] as int
        } else {
            0
        }) + (if n > 2 {
            row[2] as int
        } else {
            0
        }) + (if n > 3 {
            row[3] as int
        } else {
            0
        }),
    decreases n,
{
    if n > 0 {
        lemma_tiles_sum_row(row, n - 1);
        let t = tiles_upto(row, n);
        if row[n - 1] != 0 {
            assert(t.drop_last() =~= tiles_upto(row, n - 1));
        }
    }
}

proof fn lemma_group_value_le_sum(g: Seq<(u16, usize, Option<usize>)>, n: int, j: int)
    requires
        0 <= j < n <= g.len(),
    ensures
        group_value(g[j]) <= groups_sum(g, n),
        groups_sum(g, n) >= 0,
    decreases n,
{
    if n - 1 > j {
        lemma_group_value_le_sum(g, n - 1, j);
    } else {
        lemma_groups_sum_nonneg(g, n - 1);
    }
}

proof fn lemma_groups_sum_nonneg(g: Seq<(u16, usize, Option<usize>)>, n: int)
    requires
        n <= g.len(),
    ensures
        groups_sum(g, n) >= 0,
    decreases n,
{
    if n > 0 {
        lemma_groups_sum_nonneg(g, n - 1);
    }
}

proof fn lemma_gain_le_sum(g: Seq<(u16, usize, Option<usize>)>, n: int)
    requires
        n <= g.len(),
    ensures
        0 <= gain(g, n) <= groups_sum(g, n),
    decreases n,
{
    if n > 0 {
        lemma_gain_le_sum(g, n - 1);
    }
}

/// A row whose tiles add up to at most the largest tile cannot overflow a
/// tile when it slides, and gains at most its sum.
proof fn lemma_small_row_fits(row: Seq<u16>)
    requires
        row.len() == 4,
        row_sum(row) <= u16::MAX,
    ensures
        merges_fit(row),
        0 <= row_gain(row) <= row_sum(row),
{
    let g = row_groups(row);
    lemma_groups_keep_sum(tiles(row));
    lemma_tiles_sum_row(row, 4);
    assert(groups_sum(g, g.len() as int) == row_sum(row));
    assert forall|j: int| 0 <= j < g.len() implies group_value(#[trigger] g[j]) <= u16::MAX by {
        lemma_group_value_le_sum(g, g.len() as int, j);
    }
    lemma_gain_le_sum(g, g.len() as int);
}

/// A board whose tiles add up to at most the largest tile slides left
/// without overflowing a tile, and gains at most its sum.
pub proof fn small_board_fits(g: Seq<Seq<u16>>)
    requires
        square(g),
        grid_sum(g) <= u16::MAX,
    ensures
        grid_fits(g),
        0 <= grid_gain(g, 4) <= grid_sum(g),
{
    assert(g[0].len() == 4 && g[1].len() == 4 && g[2].len() == 4 && g[3].len() == 4);
    assert(row_sum(g[0]) >= 0 && row_sum(g[1]) >= 0 && row_sum(g[2]) >= 0 && row_sum(g[3]) >= 0);
    lemma_small_row_fits(g[0]);
    lemma_small_row_fits(g[1]);
    lemma_small_row_fits(g[2]);
    lemma_small_row_fits(g[3]);
    reveal_with_fuel(grid_gain, 5);
}

/// Law: sliding a row left keeps the sum of its tiles (when no merge
/// overflows a tile).
pub proof fn slide_keeps_row_sum(row: Seq<u16>)
    requires
        row.len() == 4,
        merges_fit(row),
    ensures
        row_sum(row_after(row)) == row_sum(row),
{
    let g = row_groups(row);
    lemma_row_groups_len(row);
    lemma_groups_keep_sum(tiles(row));
    lemma_tiles_sum_row(row, 4);
    let out = row_after(row);
    reveal_with_fuel(groups_sum, 5);
    assert forall|j: int| 0 <= j < g.len() implies out[j] == group_value(g[j]) by {
        assert(group_value(g[j]) <= u16::MAX);
        assert(group_value(g[j]) >= 0);
    }
    if g.len() == 0 {
    } else if g.len() == 1 {
    } else if g.len() == 2 {
    } else if g.len() == 3 {
    } else {
    }
}

/// Law: sliding the board left keeps the sum of all tiles.
pub proof fn slide_left_keeps_tile_sum(g: Seq<Seq<u16>>)
    requires
        square(g),
        grid_fits(g),
    ensures
        grid_sum(left_grid(g)) == grid_sum(g),
{
    slide_keeps_row_sum(g[0]);
    slide_keeps_row_sum(g[1]);
    slide_keeps_row_sum(g[2]);
    slide_keeps_row_sum(g[3]);
}

/// Tiles without equal neighbours group into single tiles.
pub proof fn lemma_groups_single<V, P>(t: Seq<(V, P)>)
    requires
        forall|i: int| 0 <= i < t.len() - 1 ==> #[trigger] t[i].0 != t[i + 1].0,
    ensures
        groups(t).len() == t.len(),
        forall|j: int| 0 <= j < t.len() ==> #[trigger] groups(t)[j] == (t[j].0, t[j].1, None::<P>),
    decreases t.len(),
{
    if t.len() > 0 {
        let rest = t.skip(1);
        assert forall|i: int| 0 <= i < rest.len() - 1 implies #[trigger] rest[i].0 != rest[i + 1].0 by {
            assert(rest[i] == t[i + 1] && rest[i + 1] == t[i + 2]);
        }
        lemma_groups_single(rest);
        assert forall|j: int| 0 <= j < t.len() implies #[trigger] groups(t)[j] == (t[j].0, t[j].1, None::<P>) by {
            if j > 0 {
                assert(groups(t)[j] == groups(rest)[j - 1]);
            }
        }
    }
}

proof fn lemma_tiles_full(row: Seq<u16>, n: int)
    requires
        0 <= n <= 4,
        forall|c: int| 0 <= c < 4 ==> #[trigger] row[c] != 0,
    ensures
        tiles_upto(row, n) =~= Seq::new(n as nat, |k: int| (row[k], k as usize)),
    decreases n,
{
    if n > 0 {
        lemma_tiles_full(row, n - 1);
    }
}

/// A full row without equal neighbours does not change when slid.
proof fn lemma_stuck_row(row: Seq<u16>)
    requires
        row.len() == 4,
        forall|c: int| 0 <= c < 4 ==> #[trigger] row[c] != 0,
        forall|c: int| 0 <= c < 3 ==> #[trigger] row[c] != row[c + 1],
    ensures
        row_after(row) == row,
{
    lemma_tiles_full(row, 4);
    let t = tiles(row);
    assert forall|i: int| 0 <= i < t.len() - 1 implies #[trigger] t[i].0 != t[i + 1].0 by {
        assert(t[i].0 == row[i] && t[i + 1].0 == row[i + 1]);
    }
    lemma_groups_single(t);
    assert(row_after(row) =~= row);
}

/// Turning a stuck grid keeps it stuck.
proof fn lemma_rotated_stuck(g: Seq<Seq<u16>>)
    requires
        square(g),
        !movable(g),
    ensures
        square(rotated(g)),
        !movable(rotated(g)),
{
    let h = rotated(g);
    if exists|r: int, c: int| 0 <= r < 4 && 0 <= c < 4 && #[trigger] h[r][c] == 0 {
        let (r, c) = choose|r: int, c: int| 0 <= r < 4 && 0 <= c < 4 && #[trigger] h[r][c] == 0;
        assert(g[3 - c][r] == 0);
    }
    if exists|r: int, c: int| 0 <= r < 4 && 0 <= c < 3 && #[trigger] h[r][c] == h[r][c + 1] {
        let (r, c) = choose|r: int, c: int| 0 <= r < 4 && 0 <= c < 3 && #[trigger] h[r][c] == h[r][c + 1];
        assert(g[3 - c][r] == g[2 - c][r]);
        assert(g[2 - c][r] == g[(2 - c) + 1][r]);
    }
    if exists|r: int, c: int| 0 <= r < 3 && 0 <= c < 4 && #[trigger] h[r][c] == h[r + 1][c] {
        let (r, c) = choose|r: int, c: int| 0 <= r < 3 && 0 <= c < 4 && #[trigger] h[r][c] == h[r + 1][c];
        assert(g[3 - c][r] == g[3 - c][r + 1]);
    }
}

/// A stuck grid does not change when slid left.
proof fn lemma_stuck_left(g: Seq<Seq<u16>>)
    requires
        square(g),
        !movable(g),
    ensures
        left_grid(g) == g,
{
    assert forall|r: int| 0 <= r < 4 implies #[trigger] left_grid(g)[r] == g[r] by {
        assert forall|c: int| 0 <= c < 4 implies #[trigger] g[r][c] != 0 by {}
        assert forall|c: int| 0 <= c < 3 implies #[trigger] g[r][c] != g[r][c + 1] by {}
        lemma_stuck_row(g[r]);
    }
    assert(left_grid(g) =~= g);
}

/// Law: on a board with no empty cell and no two equal neighbours, no
/// slide in any direction changes anything, which is when the game is over.
pub proof fn stuck_board_cannot_slide(g: Seq<Seq<u16>>)
    requires
        square(g),
        !movable(g),
    ensures
        left_grid(g) == g,
        left_grid(rotated(rotated(g))) == rotated(rotated(g)),
        left_grid(rotated(rotated(rotated(g)))) == rotated(rotated(rotated(g))),
        left_grid(rotated(g)) == rotated(g),
{
    lemma_stuck_left(g);
    lemma_rotated_stuck(g);
    lemma_stuck_left(rotated(g));
    lemma_rotated_stuck(rotated(g));
    lemma_stuck_left(rotated(rotated(g)));
    lemma_rotated_stuck(rotated(rotated(g)));
    lemma_stuck_left(rotated(rotated(rotated(g))));
}

} // verus!

verus! {

/// A quarter turn keeps the tiles, hence their sum.
pub proof fn rotation_keeps_tile_sum(g: Seq<Seq<u16>>)
    requires
        square(g),
    ensures
        square(rotated(g)),
        grid_sum(rotated(g)) == grid_sum(g),
{
}

/// A 4x4 grid slid left is 4x4.
pub proof fn lemma_left_square(g: Seq<Seq<u16>>)
    ensures
        square(left_grid(g)),
{
}


/// No tile is large enough to overflow when merged.
pub open spec fn small_tiles(g: Seq<Seq<u16>>) -> bool {
    forall|r: int, c: int| 0 <= r < 4 && 0 <= c < 4 ==> #[trigger] g[r][c] < 32768
}

/// The tiles of the row are packed to the left and no two neighbours are equal.
pub open spec fn packed(row: Seq<u16>) -> bool {
    &&& forall|c: int, d: int| 0 <= c < d < 4 && #[trigger] row[c] == 0 ==> #[trigger] row[d] == 0
    &&& forall|c: int| 0 <= c < 3 && #[trigger] row[c] != 0 ==> row[c] != row[c + 1]
}

proof fn lemma_groups_shorter<V, P>(t: Seq<(V, P)>, i: int)
    requires
        0 <= i < t.len() - 1,
        t[i].0 == t[i + 1].0,
    ensures
        groups(t).len() < t.len(),
    decreases t.len(),
{
    if t[0].0 == t[1].0 {
        lemma_groups_len(t.skip(2));
    } else {
        assert(i >= 1);
        let rest = t.skip(1);
        assert(rest[i - 1] == t[i] && rest[i] == t[i + 1]);
        lemma_groups_shorter(rest, i - 1);
    }
}

proof fn lemma_groups_values(t: Seq<(u16, usize)>)
    requires
        forall|i: int| 0 <= i < t.len() ==> 0 < (#[trigger] t[i]).0 < 32768,
    ensures
        forall|j: int| 0 <= j < groups(t).len() ==> 0 < (#[trigger] groups(t)[j]).0 < 32768,
    decreases t.len(),
{
    if t.len() > 0 {
        let k: int = if t.len() >= 2 && t[0].0 == t[1].0 {
            2
        } else {
            1
        };
        let rest = t.skip(k);
        assert forall|i: int| 0 <= i < rest.len() implies 0 < (#[trigger] rest[i]).0 < 32768 by {
            assert(rest[i] == t[i + k]);
        }
        lemma_groups_values(rest);
        assert forall|j: int| 0 <= j < groups(t).len() implies 0 < (#[trigger] groups(t)[j]).0 < 32768 by {
            if j > 0 {
                assert(groups(t)[j] == groups(rest)[j - 1]);
            }
        }
    }
}

proof fn lemma_tiles_values(row: Seq<u16>, n: int)
    requires
        0 <= n <= 4,
        row.len() == 4,
        forall|c: int| 0 <= c < 4 ==> #[trigger] row[c] < 32768,
    ensures
        forall|k: int| 0 <= k < tiles_upto(row, n).len() ==> 0 < (#[trigger] tiles_upto(row, n)[k]).0 < 32768,
    decreases n,
{
    if n > 0 {
        lemma_tiles_values(row, n - 1);
        let rest = tiles_upto(row, n - 1);
        assert(row[n - 1] < 32768);
        assert forall|k: int| 0 <= k < tiles_upto(row, n).len() implies 0 < (#[trigger] tiles_upto(row, n)[k]).0
            < 32768 by {
            if k < rest.len() {
                assert(tiles_upto(row, n)[k] == rest[k]);
            }
        }
    }
}

proof fn lemma_tiles_prefix(row: Seq<u16>, n: int, m: int)
    requires
        0 <= n <= 4,
        0 <= m <= 4,
        forall|c: int| 0 <= c < 4 ==> (#[trigger] row[c] != 0 <==> c < m),
    ensures
        tiles_upto(row, n) =~= Seq::new((if n < m { n } else { m }) as nat, |k: int| (row[k], k as usize)),
    decreases n,
{
    if n > 0 {
        lemma_tiles_prefix(row, n - 1, m);
    }
}

/// A row that sliding left leaves as it is, with no tile that would overflow
/// when merged, is packed.
proof fn lemma_still_row_packed(row: Seq<u16>)
    requires
        row.len() == 4,
        forall|c: int| 0 <= c < 4 ==> #[trigger] row[c] < 32768,
        row_after(row) == row,
    ensures
        packed(row),
{
    let t = tiles(row);
    let g = row_groups(row);
    let m = g.len() as int;
    lemma_row_groups_len(row);
    lemma_tiles_values(row, 4);
    lemma_groups_values(t);
    assert forall|c: int| 0 <= c < 4 implies (#[trigger] row[c] != 0 <==> c < m) by {
        assert(row[c] == row_after(row)[c]);
        if c < m {
            assert(0 < g[c].0 < 32768);
        }
    }
    lemma_tiles_prefix(row, 4, m);
    assert(t.len() == m);
    assert forall|c: int| 0 <= c < 3 && #[trigger] row[c] != 0 implies row[c] != row[c + 1] by {
        if row[c] == row[c + 1] {
            assert(t[c].0 == t[c + 1].0);
            lemma_groups_shorter(t, c);
        }
    }
}

proof fn lemma_still_grid_packed(h: Seq<Seq<u16>>)
    requires
        square(h),
        small_tiles(h),
        left_grid(h) == h,
    ensures
        forall|i: int| 0 <= i < 4 ==> packed(#[trigger] h[i]),
{
    assert forall|i: int| 0 <= i < 4 implies packed(#[trigger] h[i]) by {
        assert(left_grid(h)[i] == row_after(h[i]));
        assert forall|c: int| 0 <= c < 4 implies #[trigger] h[i][c] < 32768 by {}
        lemma_still_row_packed(h[i]);
    }
}

proof fn lemma_rotated_small(g: Seq<Seq<u16>>)
    requires
        square(g),
        small_tiles(g),
    ensures
        square(rotated(g)),
        small_tiles(rotated(g)),
{
    let h = rotated(g);
    assert forall|r: int, c: int| 0 <= r < 4 && 0 <= c < 4 implies #[trigger] h[r][c] < 32768 by {
        assert(h[r][c] == g[3 - c][r]);
    }
}

/// In a grid whose rows, read in all four directions, are packed, an empty
/// cell empties its whole row and its whole column.
#[verifier::spinoff_prover]
proof fn lemma_empty_spreads(g: Seq<Seq<u16>>)
    requires
        square(g),
        forall|i: int| 0 <= i < 4 ==> packed(#[trigger] g[i]),
        forall|i: int| 0 <= i < 4 ==> packed(#[trigger] rotated(g)[i]),
        forall|i: int| 0 <= i < 4 ==> packed(#[trigger] rotated(rotated(g))[i]),
        forall|i: int| 0 <= i < 4 ==> packed(#[trigger] rotated(rotated(rotated(g)))[i]),
    ensures
        forall|r: int, c: int, d: int|
            0 <= r < 4 && 0 <= c < 4 && 0 <= d < 4 && #[trigger] g[r][c] == 0 ==> #[trigger] g[r][d] == 0,
        forall|r: int, c: int, d: int|
            0 <= r < 4 && 0 <= c < 4 && 0 <= d < 4 && #[trigger] g[r][c] == 0 ==> #[trigger] g[d][c] == 0,
{
    let h1 = rotated(g);
    let h2 = rotated(h1);
    let h3 = rotated(h2);
    assert forall|r: int, c: int, d: int|
        0 <= r < 4 && 0 <= c < 4 && 0 <= d < 4 && #[trigger] g[r][c] == 0 implies #[trigger] g[r][d] == 0 by {
        let row = g[r];
        let back = h2[3 - r];
        assert(packed(row));
        assert(packed(back));
        assert(back[3 - c] == g[r][c] && back[3 - d] == g[r][d]);
        if d > c {
            assert(row[c] == 0);
        } else if d < c {
            assert(back[3 - c] == 0);
        }
    }
    assert forall|r: int, c: int, d: int|
        0 <= r < 4 && 0 <= c < 4 && 0 <= d < 4 && #[trigger] g[r][c] == 0 implies #[trigger] g[d][c] == 0 by {
        let up = h1[c];
        let down = h3[3 - c];
        assert(packed(up));
        assert(packed(down));
        assert(up[3 - r] == g[r][c] && up[3 - d] == g[d][c]);
        assert(down[r] == g[r][c] && down[d] == g[d][c]);
        if d > r {
            assert(down[r] == 0);
        } else if d < r {
            assert(up[3 - r] == 0);
        }
    }
}

/// Law: on a board with at least one tile and no tile of 32768 or more, some
/// slide changes the board whenever a cell is empty or two neighbours are
/// equal; with `stuck_board_cannot_slide`, a move is left exactly when the
/// board is movable.
pub proof fn movable_board_can_slide(g: Seq<Seq<u16>>, r0: int, c0: int)
    requires
        square(g),
        small_tiles(g),
        movable(g),
        0 <= r0 < 4,
        0 <= c0 < 4,
        g[r0][c0] != 0,
    ensures
        left_grid(g) != g || left_grid(rotated(rotated(g))) != rotated(rotated(g)) || left_grid(
            rotated(rotated(rotated(g))),
        ) != rotated(rotated(rotated(g))) || left_grid(rotated(g)) != rotated(g),
{
    let h1 = rotated(g);
    let h2 = rotated(h1);
    let h3 = rotated(h2);
    if left_grid(g) == g && left_grid(h2) == h2 && left_grid(h3) == h3 && left_grid(h1) == h1 {
        lemma_rotated_small(g);
        lemma_rotated_small(h1);
        lemma_rotated_small(h2);
        lemma_still_grid_packed(g);
        lemma_still_grid_packed(h1);
        lemma_still_grid_packed(h2);
        lemma_still_grid_packed(h3);
        lemma_empty_spreads(g);
        if exists|r: int, c: int| 0 <= r < 4 && 0 <= c < 4 && #[trigger] g[r][c] == 0 {
            let (r, c) = choose|r: int, c: int| 0 <= r < 4 && 0 <= c < 4 && #[trigger] g[r][c] == 0;
            assert(g[r][c0] == 0);
            assert(g[r0][c0] == 0);
        } else {
            if exists|r: int, c: int| 0 <= r < 4 && 0 <= c < 3 && #[trigger] g[r][c] == g[r][c + 1] {
                let (r, c) = choose|r: int, c: int| 0 <= r < 4 && 0 <= c < 3 && #[trigger] g[r][c] == g[r][c + 1];
                assert(packed(g[r]));
                assert(g[r][c] != 0);
            }
            if exists|r: int, c: int| 0 <= r < 3 && 0 <= c < 4 && #[trigger] g[r][c] == g[r + 1][c] {
                let (r, c) = choose|r: int, c: int| 0 <= r < 3 && 0 <= c < 4 && #[trigger] g[r][c] == g[r + 1][c];
                assert(packed(h3[3 - c]));
                assert(h3[3 - c][r] == g[r][c] && h3[3 - c][r + 1] == g[r + 1][c]);
                assert(g[r][c] != 0);
            }
        }
    }
}

/// Number of merged groups, counted from the front.
pub open spec fn merged_count<V, P>(g: Seq<(V, P, Option<P>)>) -> int
    decreases g.len(),
{
    if g.len() == 0 {
        0
    } else {
        (if g[0].2 is Some {
            1int
        } else {
            0int
        }) + merged_count(g.skip(1))
    }
}

/// Sum of the values of merge records.
pub open spec fn merge_total(m: Seq<(u16, usize, usize)>) -> int
    decreases m.len(),
{
    if m.len() == 0 {
        0
    } else {
        merge_total(m.drop_last()) + m.last().0
    }
}

proof fn lemma_groups_count<V, P>(t: Seq<(V, P)>)
    ensures
        groups(t).len() + merged_count(groups(t)) == t.len(),
    decreases t.len(),
{
    if t.len() > 0 {
        let k: int = if t.len() >= 2 && t[0].0 == t[1].0 {
            2
        } else {
            1
        };
        lemma_groups_count(t.skip(k));
        assert(groups(t).skip(1) =~= groups(t.skip(k)));
    }
}

proof fn lemma_merge_records_count(g: Seq<(u16, usize, Option<usize>)>, r: usize, n: int)
    requires
        0 <= n <= g.len(),
    ensures
        merge_records(g, r, n).len() == merged_count(g.take(n)),
    decreases n,
{
    if n > 0 {
        lemma_merge_records_count(g, r, n - 1);
        lemma_count_back(g.take(n));
        assert(g.take(n).drop_last() =~= g.take(n - 1));
    }
}

/// Counting from the front is counting from the back.
proof fn lemma_count_back(g: Seq<(u16, usize, Option<usize>)>)
    requires
        g.len() > 0,
    ensures
        merged_count(g) == merged_count(g.drop_last()) + if g.last().2 is Some {
            1int
        } else {
            0int
        },
    decreases g.len(),
{
    if g.len() > 1 {
        lemma_count_back(g.skip(1));
        assert(g.skip(1).drop_last() =~= g.drop_last().skip(1));
        assert(g.skip(1).last() == g.last());
        assert(g.drop_last()[0] == g[0]);
        assert(merged_count(g.drop_last()) == (if g[0].2 is Some {
            1int
        } else {
            0int
        }) + merged_count(g.drop_last().skip(1)));
    } else {
        assert(g.drop_last().len() == 0);
        assert(g.skip(1).len() == 0);
        assert(merged_count(g.skip(1)) == 0);
        assert(merged_count(g.drop_last()) == 0);
        assert(g.last() == g[0]);
    }
}

proof fn lemma_merge_total(g: Seq<(u16, usize, Option<usize>)>, r: usize, n: int)
    requires
        0 <= n <= g.len(),
        forall|j: int| 0 <= j < g.len() ==> group_value(#[trigger] g[j]) <= u16::MAX,
    ensures
        merge_total(merge_records(g, r, n)) == gain(g, n),
    decreases n,
{
    if n > 0 {
        lemma_merge_total(g, r, n - 1);
        let m = merge_records(g, r, n);
        if g[n - 1].2 is Some {
            assert(m.drop_last() =~= merge_records(g, r, n - 1));
            assert(group_value(g[n - 1]) <= u16::MAX);
        } else {
            assert(m =~= merge_records(g, r, n - 1));
        }
    }
}

/// Law: sliding a row left (with no tile of 32768 or more) packs its tiles
/// to the left with no gap, leaves one tile fewer for each merge, and gains
/// exactly the values of the merged tiles as score.
pub proof fn slide_row_shape(row: Seq<u16>, r: usize)
    requires
        row.len() == 4,
        forall|c: int| 0 <= c < 4 ==> #[trigger] row[c] < 32768,
    ensures
        forall|j: int| 0 <= j < 4 ==> (#[trigger] row_after(row)[j] != 0 <==> j < row_groups(row).len()),
        row_groups(row).len() + row_merges(row, r).len() == tiles(row).len(),
        row_gain(row) == merge_total(row_merges(row, r)),
{
    let t = tiles(row);
    let g = row_groups(row);
    lemma_row_groups_len(row);
    lemma_tiles_values(row, 4);
    lemma_groups_values(t);
    assert forall|j: int| 0 <= j < 4 implies (#[trigger] row_after(row)[j] != 0 <==> j < g.len()) by {
        if j < g.len() {
            assert(0 < g[j].0 < 32768);
        }
    }
    lemma_groups_count(t);
    lemma_merge_records_count(g, r, g.len() as int);
    assert(g.take(g.len() as int) =~= g);
    assert forall|j: int| 0 <= j < g.len() implies group_value(#[trigger] g[j]) <= u16::MAX by {
        assert(0 < g[j].0 < 32768);
    }
    lemma_merge_total(g, r, g.len() as int);
}

} // verus!
