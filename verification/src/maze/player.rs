//! The runner: tile-by-tile movement through the maze's openings, treasure
//! pickup and the exit.

use vstd::prelude::*;

use crate::maze::generator::{is_path, passages_ok, step, MAZE_HEIGHT, MAZE_WIDTH};
use crate::maze::{Direction, MazeGrid};
use crate::random::shuffle;

verus! {

pub const START_POS: (usize, usize) = (1, 1);

pub const EXIT_POS: (usize, usize) = (MAZE_WIDTH - 2, MAZE_HEIGHT - 2);

pub const TREASURE_SCORE: u32 = 100;

/// The runner: the tile it stands on, the tile it is heading to, and its
/// haul.
#[derive(Clone, Copy, PartialEq, Eq, Structural, Debug)]
pub struct Player {
    pub grid_x: usize,
    pub grid_y: usize,
    pub target_x: usize,
    pub target_y: usize,
    pub is_moving: bool,
    pub score: u32,
    pub treasures_collected: u32,
}

/// A treasure lying on a path cell.
#[derive(Clone, Copy, PartialEq, Eq, Structural, Debug)]
pub struct Treasure {
    pub grid_x: usize,
    pub grid_y: usize,
    pub collected: bool,
}

/// Score and treasures when the exit is reached.
#[derive(Clone, Copy, PartialEq, Eq, Structural, Debug)]
pub struct ClearSummary {
    pub final_score: u32,
    pub treasures_collected: u32,
}

/// The direction of a single step from `(cx, cy)` to `(tx, ty)`.
pub open spec fn dir_between(cx: int, cy: int, tx: int, ty: int) -> Option<Direction> {
    if tx - cx == 0 && ty - cy == -1 {
        Some(Direction::Up)
    } else if tx - cx == 0 && ty - cy == 1 {
        Some(Direction::Down)
    } else if tx - cx == -1 && ty - cy == 0 {
        Some(Direction::Left)
    } else if tx - cx == 1 && ty - cy == 0 {
        Some(Direction::Right)
    } else {
        None
    }
}

/// The runner stands inside the grid and heads either nowhere or through an
/// opening of its tile into the next tile.
pub open spec fn on_track(maze: MazeGrid, p: Player) -> bool {
    &&& maze.inside(p.grid_x as int, p.grid_y as int)
    &&& maze.inside(p.target_x as int, p.target_y as int)
    &&& ((p.target_x, p.target_y) == (p.grid_x, p.grid_y) || exists|d: Direction|
        !#[trigger] maze.at(p.grid_x as int, p.grid_y as int).walled(d) && step(p.grid_x as int, p.grid_y as int, d)
            == (p.target_x as int, p.target_y as int))
}

impl Player {
    /// At the start tile, standing still, nothing collected.
    pub fn new() -> (p: Player)
        ensures
            p.grid_x == 1 && p.grid_y == 1,
            p.target_x == 1 && p.target_y == 1,
            !p.is_moving,
            p.score == 0,
            p.treasures_collected == 0,
    {
        Player {
            grid_x: START_POS.0,
            grid_y: START_POS.1,
            target_x: START_POS.0,
            target_y: START_POS.1,
            is_moving: false,
            score: 0,
            treasures_collected: 0,
        }
    }
}

/// The direction from `(cx, cy)` to the neighbouring tile `(tx, ty)`, or
/// `None` when they are not neighbours.
pub fn direction_to_target(cx: usize, cy: usize, tx: usize, ty: usize) -> (r: Option<Direction>)
    requires
        cx <= isize::MAX,
        cy <= isize::MAX,
        tx <= isize::MAX,
        ty <= isize::MAX,
    ensures
        r == dir_between(cx as int, cy as int, tx as int, ty as int),
{
    let dx = tx as isize - cx as isize;
    let dy = ty as isize - cy as isize;
    if dx == 0 && dy == -1 {
        Some(Direction::Up)
    } else if dx == 0 && dy == 1 {
        Some(Direction::Down)
    } else if dx == -1 && dy == 0 {
        Some(Direction::Left)
    } else if dx == 1 && dy == 0 {
        Some(Direction::Right)
    } else {
        None
    }
}

/// The tile next to `(x, y)` towards `dir`, through an opening of the maze.
fn neighbor_through(maze: &MazeGrid, x: usize, y: usize, dir: Direction) -> (r: (usize, usize))
    requires
        maze.wf(),
        passages_ok(*maze),
        maze.inside(x as int, y as int),
        !maze.at(x as int, y as int).walled(dir),
        maze.width <= isize::MAX,
        maze.height <= isize::MAX,
    ensures
        (r.0 as int, r.1 as int) == step(x as int, y as int, dir),
        maze.inside(r.0 as int, r.1 as int),
{
    let (dx, dy) = dir.delta();
    assert(maze.inside(step(x as int, y as int, dir).0, step(x as int, y as int, dir).1));
    let nx = (x as isize + dx) as usize;
    let ny = (y as isize + dy) as usize;
    (nx, ny)
}

/// Turns while between two tiles: turning back heads to the tile left
/// behind; turning sideways heads through an opening of that tile, if there
/// is one, else nothing changes.
pub fn try_change_direction(maze: &MazeGrid, player: &mut Player, new_dir: Direction, current_dir: Direction)
    requires
        maze.wf(),
        passages_ok(*maze),
        maze.width <= isize::MAX,
        maze.height <= isize::MAX,
        maze.inside(old(player).grid_x as int, old(player).grid_y as int),
    ensures
        final(player).grid_x == old(player).grid_x && final(player).grid_y == old(player).grid_y,
        final(player).is_moving == old(player).is_moving,
        final(player).score == old(player).score,
        final(player).treasures_collected == old(player).treasures_collected,
        new_dir == current_dir.opp() ==> final(player).target_x == old(player).grid_x && final(player).target_y
            == old(player).grid_y,
        new_dir != current_dir.opp() && !maze.at(old(player).grid_x as int, old(player).grid_y as int).walled(new_dir)
            ==> (final(player).target_x as int, final(player).target_y as int) == step(
            old(player).grid_x as int,
            old(player).grid_y as int,
            new_dir,
        ),
        new_dir != current_dir.opp() && maze.at(old(player).grid_x as int, old(player).grid_y as int).walled(new_dir)
            ==> final(player).target_x == old(player).target_x && final(player).target_y == old(player).target_y,
        maze.inside(old(player).target_x as int, old(player).target_y as int) ==> on_track(*maze, *final(player))
            || *final(player) == *old(player),
{
    if new_dir == current_dir.opposite() {
        player.target_x = player.grid_x;
        player.target_y = player.grid_y;
        return;
    }
    if let Some(cell) = maze.get_cell(player.grid_x, player.grid_y) {
        if !cell.has_wall(new_dir) {
            let (nx, ny) = neighbor_through(maze, player.grid_x, player.grid_y, new_dir);
            player.target_x = nx;
            player.target_y = ny;
            assert(!maze.at(player.grid_x as int, player.grid_y as int).walled(new_dir));
            assert(on_track(*maze, *player));
        }
    }
}

/// At the centre of a tile: starts moving towards `dir` when the tile is
/// open that way.
pub fn begin_step(maze: &MazeGrid, player: &mut Player, dir: Direction)
    requires
        maze.wf(),
        passages_ok(*maze),
        maze.width <= isize::MAX,
        maze.height <= isize::MAX,
        maze.inside(old(player).grid_x as int, old(player).grid_y as int),
    ensures
        final(player).grid_x == old(player).grid_x && final(player).grid_y == old(player).grid_y,
        final(player).score == old(player).score,
        final(player).treasures_collected == old(player).treasures_collected,
        !maze.at(old(player).grid_x as int, old(player).grid_y as int).walled(dir) ==> {
            &&& (final(player).target_x as int, final(player).target_y as int) == step(
                old(player).grid_x as int,
                old(player).grid_y as int,
                dir,
            )
            &&& final(player).is_moving
            &&& on_track(*maze, *final(player))
        },
        maze.at(old(player).grid_x as int, old(player).grid_y as int).walled(dir) ==> *final(player) == *old(player),
{
    if let Some(cell) = maze.get_cell(player.grid_x, player.grid_y) {
        if !cell.has_wall(dir) {
            let (nx, ny) = neighbor_through(maze, player.grid_x, player.grid_y, dir);
            player.target_x = nx;
            player.target_y = ny;
            player.is_moving = true;
            assert(!maze.at(player.grid_x as int, player.grid_y as int).walled(dir));
            assert(on_track(*maze, *player));
        }
    }
}

/// The runner reaches the tile it was heading to.
pub fn arrive(player: &mut Player)
    ensures
        final(player).grid_x == old(player).target_x && final(player).grid_y == old(player).target_y,
        final(player).target_x == old(player).target_x && final(player).target_y == old(player).target_y,
        !final(player).is_moving,
        final(player).score == old(player).score,
        final(player).treasures_collected == old(player).treasures_collected,
{
    player.grid_x = player.target_x;
    player.grid_y = player.target_y;
    player.is_moving = false;
}

/// Between two tiles with `dir` held: a key other than the current heading
/// asks for a turn.
pub fn steer(maze: &MazeGrid, player: &mut Player, dir: Direction)
    requires
        maze.wf(),
        passages_ok(*maze),
        maze.width <= isize::MAX,
        maze.height <= isize::MAX,
        maze.inside(old(player).grid_x as int, old(player).grid_y as int),
        maze.inside(old(player).target_x as int, old(player).target_y as int),
    ensures
        final(player).grid_x == old(player).grid_x && final(player).grid_y == old(player).grid_y,
        final(player).is_moving == old(player).is_moving,
        final(player).score == old(player).score,
        final(player).treasures_collected == old(player).treasures_collected,
        dir_between(
            old(player).grid_x as int,
            old(player).grid_y as int,
            old(player).target_x as int,
            old(player).target_y as int,
        ) matches Some(cur) ==> cur == dir || {
            &&& dir == cur.opp() ==> final(player).target_x == old(player).grid_x && final(player).target_y
                == old(player).grid_y
            &&& dir != cur.opp() && !maze.at(old(player).grid_x as int, old(player).grid_y as int).walled(dir)
                ==> (final(player).target_x as int, final(player).target_y as int) == step(
                old(player).grid_x as int,
                old(player).grid_y as int,
                dir,
            )
            &&& dir != cur.opp() && maze.at(old(player).grid_x as int, old(player).grid_y as int).walled(dir)
                ==> *final(player) == *old(player)
        },
        !(dir_between(
            old(player).grid_x as int,
            old(player).grid_y as int,
            old(player).target_x as int,
            old(player).target_y as int,
        ) matches Some(cur) && cur != dir) ==> *final(player) == *old(player),
        on_track(*maze, *old(player)) ==> on_track(*maze, *final(player)),
{
    let current = direction_to_target(player.grid_x, player.grid_y, player.target_x, player.target_y);
    if let Some(current_move_dir) = current {
        if dir != current_move_dir {
            try_change_direction(maze, player, dir, current_move_dir);
        }
    }
}

/// Whether the runner stands on the exit.
pub fn reached_exit(player: &Player) -> (r: bool)
    ensures
        r == (player.grid_x == EXIT_POS.0 && player.grid_y == EXIT_POS.1),
{
    player.grid_x == EXIT_POS.0 && player.grid_y == EXIT_POS.1
}

/// The summary shown once the exit is reached, `None` before.
pub fn check_exit_reached(player: &Player) -> (r: Option<ClearSummary>)
    ensures
        r is Some <==> (player.grid_x == EXIT_POS.0 && player.grid_y == EXIT_POS.1),
        r matches Some(c) ==> c.final_score == player.score && c.treasures_collected == player.treasures_collected,
{
    if reached_exit(player) {
        Some(ClearSummary { final_score: player.score, treasures_collected: player.treasures_collected })
    } else {
        None
    }
}

/// Indices of the treasures not yet collected on the runner's tile.
pub fn collect_treasures(player: &Player, treasures: &Vec<Treasure>) -> (found: Vec<usize>)
    ensures
        forall|k: int| 0 <= k < found@.len() ==> (#[trigger] found@[k] as int) < treasures@.len(),
        forall|i: int|
            0 <= i < treasures@.len() ==> (found@.contains(i as usize) <==> (!(#[trigger] treasures@[i]).collected
                && treasures@[i].grid_x == player.grid_x && treasures@[i].grid_y == player.grid_y)),
        forall|a: int, b: int| 0 <= a < b < found@.len() ==> found@[a] < found@[b],
{
    let mut found: Vec<usize> = Vec::new();
    let mut i: usize = 0;
    while i < treasures.len()
        invariant
            i <= treasures@.len(),
            forall|k: int| 0 <= k < found@.len() ==> (#[trigger] found@[k] as int) < i,
            forall|j: int|
                0 <= j < i ==> (found@.contains(j as usize) <==> (!(#[trigger] treasures@[j]).collected
                    && treasures@[j].grid_x == player.grid_x && treasures@[j].grid_y == player.grid_y)),
            forall|a: int, b: int| 0 <= a < b < found@.len() ==> found@[a] < found@[b],
        decreases treasures.len() - i,
    {
        let t = treasures[i];
        let ghost before = found@;
        if !t.collected && player.grid_x == t.grid_x && player.grid_y == t.grid_y {
            found.push(i);
            proof {
                crate::seq_facts::lemma_push_contains(before, i);
            }
        }
        proof {
            assert forall|j: int| 0 <= j < i + 1 implies (found@.contains(j as usize) <==> (!(
            #[trigger] treasures@[j]).collected && treasures@[j].grid_x == player.grid_x && treasures@[j].grid_y
                == player.grid_y)) by {
                if found@.contains(j as usize) && !before.contains(j as usize) {
                    assert(j == i);
                }
                if j < i && before.contains(j as usize) {
                    assert(found@.contains(j as usize));
                }
                if j == i && before.contains(j as usize) {
                    let k = choose|k: int| 0 <= k < before.len() && before[k] == j as usize;
                    assert((before[k] as int) < i);
                }
            }
        }
        i += 1;
    }
    found
}

/// A collected treasure adds its score.
pub fn handle_treasure_collected(player: &mut Player)
    requires
        old(player).score + TREASURE_SCORE <= u32::MAX,
        old(player).treasures_collected < u32::MAX,
    ensures
        final(player).score == old(player).score + TREASURE_SCORE,
        final(player).treasures_collected == old(player).treasures_collected + 1,
        final(player).grid_x == old(player).grid_x && final(player).grid_y == old(player).grid_y,
        final(player).target_x == old(player).target_x && final(player).target_y == old(player).target_y,
        final(player).is_moving == old(player).is_moving,
{
    player.score += TREASURE_SCORE;
    player.treasures_collected += 1;
}

/// Path cells that may hold a treasure: every path cell but the start and
/// the exit, column by column.
pub open spec fn treasure_spot(maze: MazeGrid, x: int, y: int) -> bool {
    &&& 0 <= x < maze.width && 0 <= y < maze.height
    &&& x % 2 == 1 && y % 2 == 1
    &&& (x, y) != (START_POS.0 as int, START_POS.1 as int)
    &&& (x, y) != (EXIT_POS.0 as int, EXIT_POS.1 as int)
}

/// The treasure spots of column `x` among its first `y` rows.
pub open spec fn spot_column(maze: MazeGrid, x: int, y: int) -> Seq<(usize, usize)>
    decreases y,
{
    if y <= 0 {
        Seq::empty()
    } else {
        spot_column(maze, x, y - 1) + if treasure_spot(maze, x, y - 1) {
            seq![(x as usize, (y - 1) as usize)]
        } else {
            Seq::empty()
        }
    }
}

/// The treasure spots of the first `x` columns, column by column.
pub open spec fn spot_list(maze: MazeGrid, x: int) -> Seq<(usize, usize)>
    decreases x,
{
    if x <= 0 {
        Seq::empty()
    } else {
        spot_list(maze, x - 1) + spot_column(maze, x - 1, maze.height as int)
    }
}

/// `count` distinct treasure spots in random order (all of them when there
/// are fewer): the first `count` of some ordering of every path cell but the
/// start and the exit.
pub fn spawn_treasures(maze: &MazeGrid, count: usize) -> (spots: Vec<(usize, usize)>)
    ensures
        exists|order: Seq<(usize, usize)>|
            #![trigger order.to_multiset()]
            order.to_multiset() == spot_list(*maze, maze.width as int).to_multiset() && spots@ == order.take(
                if count < order.len() {
                    count as int
                } else {
                    order.len() as int
                },
            ),
        spots@.len() <= count,
        forall|k: int| 0 <= k < spots@.len() ==> treasure_spot(*maze, (#[trigger] spots@[k]).0 as int, spots@[k].1 as int),
        forall|a: int, b: int| 0 <= a < b < spots@.len() ==> spots@[a] != spots@[b],
{
    let mut path_cells: Vec<(usize, usize)> = Vec::new();
    let mut x: usize = 0;
    while x < maze.width
        invariant
            x <= maze.width,
            path_cells@ == spot_list(*maze, x as int),
            forall|k: int| 0 <= k < path_cells@.len() ==> treasure_spot(*maze, (#[trigger] path_cells@[k]).0 as int, path_cells@[k].1 as int) && (path_cells@[k].0 as int) < x,
            forall|a: int, b: int| 0 <= a < b < path_cells@.len() ==> path_cells@[a] != path_cells@[b],
        decreases maze.width - x,
    {
        let mut y: usize = 0;
        while y < maze.height
            invariant
                x < maze.width,
                y <= maze.height,
                path_cells@ == spot_list(*maze, x as int) + spot_column(*maze, x as int, y as int),
                forall|k: int|
                    0 <= k < path_cells@.len() ==> treasure_spot(*maze, (#[trigger] path_cells@[k]).0 as int, path_cells@[k].1 as int)
                        && ((path_cells@[k].0 as int) < x || (path_cells@[k].0 == x && (path_cells@[k].1 as int) < y)),
                forall|a: int, b: int| 0 <= a < b < path_cells@.len() ==> path_cells@[a] != path_cells@[b],
            decreases maze.height - y,
        {
            let ghost before = path_cells@;
            if maze.is_path_cell(x, y) {
                let is_start = x == START_POS.0 && y == START_POS.1;
                let is_exit = x == EXIT_POS.0 && y == EXIT_POS.1;
                if !(is_start || is_exit) {
                    path_cells.push((x, y));
                }
            }
            proof {
                let base = spot_list(*maze, x as int);
                let col = spot_column(*maze, x as int, y as int);
                if treasure_spot(*maze, x as int, y as int) {
                    assert(path_cells@ =~= base + (col + seq![(x, y)]));
                } else {
                    assert(col + Seq::<(usize, usize)>::empty() =~= col);
                    assert(path_cells@ =~= base + spot_column(*maze, x as int, y + 1));
                }
            }
            y += 1;
        }
        proof {
            assert(path_cells@ =~= spot_list(*maze, x + 1));
        }
        x += 1;
    }
    let ghost listed = path_cells@;
    shuffle(&mut path_cells);
    proof {
        listed.to_multiset_ensures();
        path_cells@.to_multiset_ensures();
        assert forall|k: int| 0 <= k < path_cells@.len() implies treasure_spot(
            *maze,
            (#[trigger] path_cells@[k]).0 as int,
            path_cells@[k].1 as int,
        ) by {
            assert(path_cells@.contains(path_cells@[k]));
            assert(listed.to_multiset().count(path_cells@[k]) > 0);
            let j = choose|j: int| 0 <= j < listed.len() && listed[j] == path_cells@[k];
            assert(listed[j] == path_cells@[k]);
        }
        listed.lemma_multiset_has_no_duplicates();
        assert(listed.no_duplicates());
        path_cells@.lemma_multiset_has_no_duplicates_conv();
    }
    let n = if count < path_cells.len() {
        count
    } else {
        path_cells.len()
    };
    let mut spots: Vec<(usize, usize)> = Vec::new();
    let mut i: usize = 0;
    while i < n
        invariant
            i <= n,
            n <= path_cells@.len(),
            n <= count,
            spots@ == path_cells@.take(i as int),
            forall|k: int| 0 <= k < path_cells@.len() ==> treasure_spot(*maze, (#[trigger] path_cells@[k]).0 as int, path_cells@[k].1 as int),
            path_cells@.no_duplicates(),
        decreases n - i,
    {
        spots.push(path_cells[i]);
        i += 1;
        assert(spots@ =~= path_cells@.take(i as int));
    }
    spots
}

} // verus!
