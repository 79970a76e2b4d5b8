//! A game of 2048 as the animated front end plays it: moves are taken only
//! while the game is on, a move that changes the board spawns a tile and
//! starts an animation, and the best score, the win and the end of the game
//! are tracked.

use vstd::prelude::*;

use crate::game2048::board::{
    grid_sum, rotation_keeps_tile_sum, row_sum, small_board_fits, square,
    grid, grid_fits, grid_gain, grid_merges, grid_slides, half_turn_merge, half_turn_slide, has_empty,
    has_tile, left_grid, movable, one_turn_merge, one_turn_slide, rotated, spawned_at, three_turns_merge,
    three_turns_slide, Board, SlideInfo, SIZE,
};

verus! {

/// One tile animation.
#[derive(Clone, Copy, PartialEq, Eq, Structural, Debug)]
pub enum TileAnim {
    /// A tile moves from one cell to another.
    Slide { value: u16, from_r: usize, from_c: usize, to_r: usize, to_c: usize },
    /// Two tiles merged into `value` at `(r, c)`.
    Merge { value: u16, r: usize, c: usize },
    /// A new tile appears at `(r, c)`.
    Spawn { value: u16, r: usize, c: usize },
}

/// An arrow key.
#[derive(Clone, Copy, PartialEq, Eq, Structural, Debug)]
pub enum Move {
    Left,
    Right,
    Up,
    Down,
}

/// The animations of a slide: every slide record, then every merge record.
pub open spec fn anims_of(
    slides: Seq<(u16, usize, usize, usize, usize)>,
    merges: Seq<(u16, usize, usize)>,
) -> Seq<TileAnim> {
    slides.map_values(
        |t: (u16, usize, usize, usize, usize)|
            TileAnim::Slide { value: t.0, from_r: t.1, from_c: t.2, to_r: t.3, to_c: t.4 },
    ) + merges.map_values(|m: (u16, usize, usize)| TileAnim::Merge { value: m.0, r: m.1, c: m.2 })
}

/// Whether `(r, c)` is where a slide ends or a merge happens.
pub open spec fn occupied(info_slides: Seq<(u16, usize, usize, usize, usize)>, info_merges: Seq<(u16, usize, usize)>, r: usize, c: usize) -> bool {
    (exists|k: int| 0 <= k < info_slides.len() && (#[trigger] info_slides[k]).3 == r && info_slides[k].4 == c)
        || (exists|k: int| 0 <= k < info_merges.len() && (#[trigger] info_merges[k]).1 == r && info_merges[k].2 == c)
}

/// The first tile, row by row among the first `n` cells, that no slide
/// ends on and no merge made.
pub open spec fn new_tile_upto(
    g: Seq<Seq<u16>>,
    slides: Seq<(u16, usize, usize, usize, usize)>,
    merges: Seq<(u16, usize, usize)>,
    n: int,
) -> Option<(u16, usize, usize)>
    decreases n,
{
    if n <= 0 {
        None
    } else {
        let earlier = new_tile_upto(g, slides, merges, n - 1);
        let r = (n - 1) / 4;
        let c = (n - 1) % 4;
        if earlier is Some {
            earlier
        } else if g[r][c] != 0 && !occupied(slides, merges, r as usize, c as usize) {
            Some((g[r][c], r as usize, c as usize))
        } else {
            None
        }
    }
}

proof fn lemma_new_tile_stable(
    g: Seq<Seq<u16>>,
    slides: Seq<(u16, usize, usize, usize, usize)>,
    merges: Seq<(u16, usize, usize)>,
    n: int,
    k: int,
)
    requires
        0 <= n <= k,
        new_tile_upto(g, slides, merges, n) is Some,
    ensures
        new_tile_upto(g, slides, merges, k) == new_tile_upto(g, slides, merges, n),
    decreases k,
{
    if k > n {
        lemma_new_tile_stable(g, slides, merges, n, k - 1);
    }
}

/// The grid a move slides left: turned so that the move goes left.
pub open spec fn turned(g: Seq<Seq<u16>>, mv: Move) -> Seq<Seq<u16>> {
    match mv {
        Move::Left => g,
        Move::Right => rotated(rotated(g)),
        Move::Up => rotated(rotated(rotated(g))),
        Move::Down => rotated(g),
    }
}

/// The grid after a move.
pub open spec fn after_move(g: Seq<Seq<u16>>, mv: Move) -> Seq<Seq<u16>> {
    match mv {
        Move::Left => left_grid(g),
        Move::Right => rotated(rotated(left_grid(turned(g, mv)))),
        Move::Up => rotated(left_grid(turned(g, mv))),
        Move::Down => rotated(rotated(rotated(left_grid(turned(g, mv))))),
    }
}

/// The slide records of a move, in the board's own coordinates.
pub open spec fn move_slides(g: Seq<Seq<u16>>, mv: Move) -> Seq<(u16, usize, usize, usize, usize)> {
    match mv {
        Move::Left => grid_slides(g, 4),
        Move::Right => grid_slides(turned(g, mv), 4).map_values(|t| half_turn_slide(t)),
        Move::Up => grid_slides(turned(g, mv), 4).map_values(|t| three_turns_slide(t)),
        Move::Down => grid_slides(turned(g, mv), 4).map_values(|t| one_turn_slide(t)),
    }
}

/// The merge records of a move, in the board's own coordinates.
pub open spec fn move_merges(g: Seq<Seq<u16>>, mv: Move) -> Seq<(u16, usize, usize)> {
    match mv {
        Move::Left => grid_merges(g, 4),
        Move::Right => grid_merges(turned(g, mv), 4).map_values(|t| half_turn_merge(t)),
        Move::Up => grid_merges(turned(g, mv), 4).map_values(|t| three_turns_merge(t)),
        Move::Down => grid_merges(turned(g, mv), 4).map_values(|t| one_turn_merge(t)),
    }
}

/// The move changes the tiles.
pub open spec fn changes(g: Seq<Seq<u16>>, mv: Move) -> bool {
    left_grid(turned(g, mv)) != turned(g, mv)
}

/// No merged tile overflows and the score stays within `u32`.
pub open spec fn move_fits(g: Seq<Seq<u16>>, score: u32, mv: Move) -> bool {
    grid_fits(turned(g, mv)) && score + grid_gain(turned(g, mv), 4) <= u32::MAX
}

/// Animations from a slide's records.
pub fn build_anims(info: &SlideInfo) -> (anims: Vec<TileAnim>)
    ensures
        anims@ == anims_of(info.slides@, info.merges@),
{
    let mut anims: Vec<TileAnim> = Vec::new();
    let mut i: usize = 0;
    while i < info.slides.len()
        invariant
            i <= info.slides@.len(),
            anims@ == anims_of(info.slides@.take(i as int), seq![]),
        decreases info.slides.len() - i,
    {
        let (value, from_r, from_c, to_r, to_c) = info.slides[i];
        anims.push(TileAnim::Slide { value, from_r, from_c, to_r, to_c });
        i += 1;
        assert(anims@ =~= anims_of(info.slides@.take(i as int), seq![]));
    }
    assert(info.slides@.take(info.slides@.len() as int) =~= info.slides@);
    let mut j: usize = 0;
    while j < info.merges.len()
        invariant
            j <= info.merges@.len(),
            anims@ == anims_of(info.slides@, info.merges@.take(j as int)),
        decreases info.merges.len() - j,
    {
        let (value, r, c) = info.merges[j];
        anims.push(TileAnim::Merge { value, r, c });
        j += 1;
        assert(anims@ =~= anims_of(info.slides@, info.merges@.take(j as int)));
    }
    assert(info.merges@.take(info.merges@.len() as int) =~= info.merges@);
    anims
}

/// The tile that appeared after a slide: the first tile, row by row, that
/// no slide ends on and no merge made.
pub fn find_new_tile(board: &Board, info: &SlideInfo) -> (r: Option<(u16, usize, usize)>)
    ensures
        r == new_tile_upto(grid(board.cells), info.slides@, info.merges@, 16),
{
    let ghost g = grid(board.cells);
    let mut r: usize = 0;
    while r < SIZE
        invariant
            r <= 4,
            g == grid(board.cells),
            new_tile_upto(g, info.slides@, info.merges@, (r * 4) as int) is None,
        decreases 4 - r,
    {
        let mut c: usize = 0;
        while c < SIZE
            invariant
                r < 4,
                c <= 4,
                g == grid(board.cells),
                new_tile_upto(g, info.slides@, info.merges@, (r * 4 + c) as int) is None,
            decreases 4 - c,
        {
            assert((r * 4 + c) / 4 == r && (r * 4 + c) % 4 == c);
            let mut taken = false;
            let mut k: usize = 0;
            while k < info.slides.len()
                invariant
                    k <= info.slides@.len(),
                    taken == exists|m: int| 0 <= m < k && (#[trigger] info.slides@[m]).3 == r && info.slides@[m].4 == c,
                decreases info.slides.len() - k,
            {
                let (_, _, _, tr, tc) = info.slides[k];
                if tr == r && tc == c {
                    taken = true;
                }
                k += 1;
            }
            let mut k: usize = 0;
            while k < info.merges.len()
                invariant
                    k <= info.merges@.len(),
                    taken == ((exists|m: int| 0 <= m < info.slides@.len() && (#[trigger] info.slides@[m]).3 == r
                        && info.slides@[m].4 == c) || exists|m: int|
                        0 <= m < k && (#[trigger] info.merges@[m]).1 == r && info.merges@[m].2 == c),
                decreases info.merges.len() - k,
            {
                let (_, mr, mc) = info.merges[k];
                if mr == r && mc == c {
                    taken = true;
                }
                k += 1;
            }
            assert(taken == occupied(info.slides@, info.merges@, r, c));
            if board.cells[r][c] != 0 && !taken {
                proof {
                    lemma_new_tile_stable(g, info.slides@, info.merges@, (r * 4 + c + 1) as int, 16);
                }
                return Some((board.cells[r][c], r, c));
            }
            c += 1;
        }
        r += 1;
    }
    None
}

/// The state of an animated game.
pub struct Session {
    pub board: Board,
    pub game_over: bool,
    pub won: bool,
    pub keep_playing: bool,
    pub best_score: u32,
}

/// What one move started: the animations, the tile that appeared and the
/// tiles before the move.
pub struct Turn {
    pub anims: Vec<TileAnim>,
    pub spawned: Option<(u16, usize, usize)>,
    pub prev_cells: [[u16; 4]; 4],
}

/// Moves in every direction fit when the tiles add up to at most the
/// largest tile and the score leaves room for that much more.
pub proof fn small_board_moves_fit(g: Seq<Seq<u16>>, score: u32, mv: Move)
    requires
        square(g),
        grid_sum(g) <= u16::MAX,
        score + u16::MAX <= u32::MAX,
    ensures
        move_fits(g, score, mv),
{
    rotation_keeps_tile_sum(g);
    rotation_keeps_tile_sum(rotated(g));
    rotation_keeps_tile_sum(rotated(rotated(g)));
    small_board_fits(turned(g, mv));
}

impl Session {
    /// A fresh game with two tiles and no best score yet.
    pub fn new() -> (s: Session)
        ensures
            !s.game_over && !s.won && !s.keep_playing,
            s.best_score == 0,
            s.board.score == 0,
    {
        Session { board: Board::new(), game_over: false, won: false, keep_playing: false, best_score: 0 }
    }

    /// R: a fresh board, the best score kept.
    pub fn restart(&mut self)
        ensures
            !final(self).game_over && !final(self).won && !final(self).keep_playing,
            final(self).best_score == old(self).best_score,
            final(self).board.score == 0,
    {
        self.board = Board::new();
        self.game_over = false;
        self.won = false;
        self.keep_playing = false;
    }

    /// C: after a win, play goes on.
    pub fn keep_going(&mut self)
        ensures
            final(self).keep_playing == (old(self).keep_playing || old(self).won),
            final(self).board == old(self).board,
            final(self).game_over == old(self).game_over,
            final(self).won == old(self).won,
            final(self).best_score == old(self).best_score,
    {
        if self.won && !self.keep_playing {
            self.keep_playing = true;
        }
    }

    /// Whether every move can be played without overflowing a tile or the
    /// score: the tiles add up to at most the largest tile and the score
    /// has that much room left.
    pub fn has_room(&self) -> (r: bool)
        ensures
            r == (grid_sum(grid(self.board.cells)) <= u16::MAX && self.board.score + u16::MAX <= u32::MAX),
            r ==> forall|mv: Move| #[trigger] move_fits(grid(self.board.cells), self.board.score, mv),
    {
        let c = &self.board.cells;
        let t0 = c[0][0] as u32 + c[0][1] as u32 + c[0][2] as u32 + c[0][3] as u32;
        let t1 = c[1][0] as u32 + c[1][1] as u32 + c[1][2] as u32 + c[1][3] as u32;
        let t2 = c[2][0] as u32 + c[2][1] as u32 + c[2][2] as u32 + c[2][3] as u32;
        let t3 = c[3][0] as u32 + c[3][1] as u32 + c[3][2] as u32 + c[3][3] as u32;
        let total = t0 + t1 + t2 + t3;
        let ghost g = grid(self.board.cells);
        assert(g[0] == c@[0]@ && g[1] == c@[1]@ && g[2] == c@[2]@ && g[3] == c@[3]@);
        assert(total == grid_sum(g));
        let ok = total <= 65535 && self.board.score <= u32::MAX - 65535;
        proof {
            if ok {
                assert(square(g));
                assert forall|mv: Move| #[trigger] move_fits(g, self.board.score, mv) by {
                    small_board_moves_fit(g, self.board.score, mv);
                }
            }
        }
        ok
    }

    /// Whether arrow keys are taken: the game is not over, and a win has
    /// not stopped it.
    pub fn accepts_moves(&self) -> (r: bool)
        ensures
            r == (!self.game_over && !(self.won && !self.keep_playing)),
    {
        !self.game_over && !(self.won && !self.keep_playing)
    }

    /// Plays `mv`. Ignored while moves are not taken, and a move that changes
    /// nothing does nothing more; otherwise a tile spawns, the animations are
    /// returned, the best score follows the score, and a new 2048 tile stops
    /// the game unless play goes on, else a stuck board ends it.
    pub fn play(&mut self, mv: Move) -> (turn: Option<Turn>)
        requires
            !old(self).game_over && !(old(self).won && !old(self).keep_playing) ==> move_fits(
                grid(old(self).board.cells),
                old(self).board.score,
                mv,
            ),
        ensures
            !(!old(self).game_over && !(old(self).won && !old(self).keep_playing)) ==> turn is None && final(self).board.cells
                == old(self).board.cells && final(self).board.score == old(self).board.score
                && final(self).game_over == old(self).game_over && final(self).won == old(self).won
                && final(self).best_score == old(self).best_score,
            !old(self).game_over && !(old(self).won && !old(self).keep_playing) ==> {
                let g = grid(old(self).board.cells);
                let g1 = after_move(g, mv);
                let score1 = old(self).board.score + grid_gain(turned(g, mv), 4);
                &&& changes(g, mv) ==> {
                    &&& turn matches Some(t) && {
                        &&& grid(t.prev_cells) == g1
                        &&& t.anims@ == anims_of(move_slides(g, mv), move_merges(g, mv))
                        &&& t.spawned == new_tile_upto(grid(final(self).board.cells), move_slides(g, mv), move_merges(g, mv), 16)
                    }
                    &&& has_empty(g1) ==> exists|r: int, c: int| spawned_at(g1, grid(final(self).board.cells), r, c)
                    &&& !has_empty(g1) ==> grid(final(self).board.cells) == g1
                    &&& final(self).board.score == score1
                    &&& final(self).best_score == if score1 > old(self).best_score {
                        score1
                    } else {
                        old(self).best_score as int
                    }
                    &&& final(self).won == (old(self).won || (has_tile(grid(final(self).board.cells), 2048) && !old(self).keep_playing))
                    &&& final(self).game_over == (!(has_tile(grid(final(self).board.cells), 2048) && !old(self).keep_playing)
                        && !movable(grid(final(self).board.cells)))
                }
                &&& !changes(g, mv) ==> turn is None && grid(final(self).board.cells) == g1 && final(self).board.score == score1
                    && final(self).game_over == old(self).game_over && final(self).won == old(self).won
                    && final(self).best_score == old(self).best_score
            },
            final(self).keep_playing == old(self).keep_playing,
    {
        if !self.accepts_moves() {
            return None;
        }
        let (moved, info) = match mv {
            Move::Left => self.board.slide_left(),
            Move::Right => self.board.slide_right(),
            Move::Up => self.board.slide_up(),
            Move::Down => self.board.slide_down(),
        };
        if !moved {
            return None;
        }
        let prev_cells = self.board.cells;
        let anims = build_anims(&info);
        self.board.add_random_tile();
        let spawned = find_new_tile(&self.board, &info);
        if self.board.score > self.best_score {
            self.best_score = self.board.score;
        }
        if self.board.has_won() && !self.keep_playing {
            self.won = true;
        } else if !self.board.can_move() {
            self.game_over = true;
        }
        Some(Turn { anims, spawned, prev_cells })
    }
}

} // verus!

verus! {

/// Law: every move keeps the sum of the tiles on the board (before the new
/// tile spawns).
pub proof fn every_move_keeps_tile_sum(g: Seq<Seq<u16>>, score: u32, mv: Move)
    requires
        crate::game2048::board::square(g),
        move_fits(g, score, mv),
    ensures
        crate::game2048::board::grid_sum(after_move(g, mv)) == crate::game2048::board::grid_sum(g),
{
    use_board_laws(g);
    let t = turned(g, mv);
    crate::game2048::board::slide_left_keeps_tile_sum(t);
    crate::game2048::board::lemma_left_square(t);
    let l = left_grid(t);
    crate::game2048::board::rotation_keeps_tile_sum(l);
    crate::game2048::board::rotation_keeps_tile_sum(rotated(l));
    crate::game2048::board::rotation_keeps_tile_sum(rotated(rotated(l)));
}

proof fn use_board_laws(g: Seq<Seq<u16>>)
    requires
        crate::game2048::board::square(g),
    ensures
        crate::game2048::board::square(rotated(g)),
        crate::game2048::board::square(rotated(rotated(g))),
        crate::game2048::board::square(rotated(rotated(rotated(g)))),
        crate::game2048::board::grid_sum(rotated(g)) == crate::game2048::board::grid_sum(g),
        crate::game2048::board::grid_sum(rotated(rotated(g))) == crate::game2048::board::grid_sum(g),
        crate::game2048::board::grid_sum(rotated(rotated(rotated(g)))) == crate::game2048::board::grid_sum(g),
{
    crate::game2048::board::rotation_keeps_tile_sum(g);
    crate::game2048::board::rotation_keeps_tile_sum(rotated(g));
    crate::game2048::board::rotation_keeps_tile_sum(rotated(rotated(g)));
}

/// Law: on a stuck board (full, no equal neighbours) no move changes the
/// tiles.
pub proof fn stuck_board_ignores_moves(g: Seq<Seq<u16>>, mv: Move)
    requires
        crate::game2048::board::square(g),
        !movable(g),
    ensures
        !changes(g, mv),
{
    crate::game2048::board::stuck_board_cannot_slide(g);
}

} // verus!
