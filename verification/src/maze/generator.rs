//! Maze generation: a depth-first recursive backtracker over the path cells
//! of a 21x21 grid, starting at (1, 1) and trying the four directions in a
//! random order at every cell.

use vstd::prelude::*;

use crate::maze::{Direction, MazeCell, MazeGrid, DIRECTIONS};
use crate::random::shuffle;

verus! {

pub const MAZE_WIDTH: usize = 21;

pub const MAZE_HEIGHT: usize = 21;

/// A well-formed grid of the maze's size.
pub open spec fn sized(g: MazeGrid) -> bool {
    g.wf() && g.width == 21 && g.height == 21
}

/// Path cells: odd coordinates inside the grid.
pub open spec fn is_path(x: int, y: int) -> bool {
    0 <= x < 21 && 0 <= y < 21 && x % 2 == 1 && y % 2 == 1
}

/// The cell one step from `(x, y)` towards `d`.
pub open spec fn step(x: int, y: int, d: Direction) -> (int, int) {
    (x + d.dx(), y + d.dy())
}

/// The path cell two steps from `(x, y)` towards `d`.
pub open spec fn leap(x: int, y: int, d: Direction) -> (int, int) {
    (x + 2 * d.dx(), y + 2 * d.dy())
}

/// Every opening is a two-way passage inside the grid: where a cell has no
/// wall towards `d`, the next cell that way exists and has no wall back.
pub open spec fn passages_ok(g: MazeGrid) -> bool {
    forall|x: int, y: int, d: Direction|
        g.inside(x, y) && !(#[trigger] g.at(x, y).walled(d)) ==> g.inside(step(x, y, d).0, step(x, y, d).1)
            && !g.at(step(x, y, d).0, step(x, y, d).1).walled(d.opp())
}

/// Only path cells are ever marked visited.
pub open spec fn visits_paths_only(g: MazeGrid) -> bool {
    forall|x: int, y: int| g.inside(x, y) && (#[trigger] g.at(x, y)).visited ==> is_path(x, y)
}

/// Unvisited cells among the first `n` in column-major order.
pub open spec fn unvisited_upto(g: MazeGrid, n: int) -> int
    decreases n,
{
    if n <= 0 {
        0
    } else {
        unvisited_upto(g, n - 1) + if g.at((n - 1) / 21, (n - 1) % 21).visited {
            0int
        } else {
            1
        }
    }
}

/// `p` walks through open walls, one cell at a time: `ds[k]` leads from
/// `p[k]` to `p[k + 1]` and the wall of `p[k]` that way is down.
pub open spec fn walk(g: MazeGrid, p: Seq<(int, int)>, ds: Seq<Direction>) -> bool {
    &&& p.len() == ds.len() + 1
    &&& forall|k: int| 0 <= k < p.len() ==> g.inside((#[trigger] p[k]).0, p[k].1)
    &&& forall|k: int|
        0 <= k < ds.len() ==> !g.at(p[k].0, p[k].1).walled(#[trigger] ds[k]) && p[k + 1] == step(p[k].0, p[k].1, ds[k])
}

/// `b` can be reached from `a` without crossing a wall.
pub open spec fn joined(g: MazeGrid, a: (int, int), b: (int, int)) -> bool {
    exists|p: Seq<(int, int)>, ds: Seq<Direction>| #[trigger] walk(g, p, ds) && p[0] == a && p.last() == b
}

/// Every wall that is down in `a` is down in `b`.
pub open spec fn opens_more(a: MazeGrid, b: MazeGrid) -> bool {
    forall|x: int, y: int, d: Direction| a.inside(x, y) && !(#[trigger] a.at(x, y).walled(d)) ==> !b.at(x, y).walled(d)
}

proof fn lemma_joined_refl(g: MazeGrid, a: (int, int))
    requires
        g.inside(a.0, a.1),
    ensures
        joined(g, a, a),
{
    let p = seq![a];
    let ds = Seq::<Direction>::empty();
    assert(walk(g, p, ds));
    assert(p[0] == a && p.last() == a);
}

proof fn lemma_joined_mono(g: MazeGrid, h: MazeGrid, a: (int, int), b: (int, int))
    requires
        sized(g),
        sized(h),
        opens_more(g, h),
        joined(g, a, b),
    ensures
        joined(h, a, b),
{
    let (p, ds) = choose|p: Seq<(int, int)>, ds: Seq<Direction>| #[trigger] walk(g, p, ds) && p[0] == a && p.last() == b;
    assert forall|k: int| 0 <= k < ds.len() implies !h.at(p[k].0, p[k].1).walled(#[trigger] ds[k]) && p[k + 1] == step(
        p[k].0,
        p[k].1,
        ds[k],
    ) by {
        assert(g.inside(p[k].0, p[k].1));
    }
    assert(walk(h, p, ds));
}

proof fn lemma_joined_trans(g: MazeGrid, a: (int, int), b: (int, int), c: (int, int))
    requires
        joined(g, a, b),
        joined(g, b, c),
    ensures
        joined(g, a, c),
{
    let (p1, ds1) = choose|p: Seq<(int, int)>, ds: Seq<Direction>| #[trigger] walk(g, p, ds) && p[0] == a && p.last() == b;
    let (p2, ds2) = choose|p: Seq<(int, int)>, ds: Seq<Direction>| #[trigger] walk(g, p, ds) && p[0] == b && p.last() == c;
    let p = p1 + p2.subrange(1, p2.len() as int);
    let ds = ds1 + ds2;
    assert forall|k: int| 0 <= k < p.len() implies g.inside((#[trigger] p[k]).0, p[k].1) by {
        if k < p1.len() {
            assert(p[k] == p1[k]);
        } else {
            assert(p[k] == p2[k - p1.len() + 1]);
        }
    }
    assert forall|k: int| 0 <= k < ds.len() implies !g.at(p[k].0, p[k].1).walled(#[trigger] ds[k]) && p[k + 1] == step(
        p[k].0,
        p[k].1,
        ds[k],
    ) by {
        if k < ds1.len() {
            assert(ds[k] == ds1[k]);
            assert(p[k] == p1[k]);
            assert(p[k + 1] == p1[k + 1]);
        } else {
            let j = k - ds1.len();
            assert(ds[k] == ds2[j]);
            if j == 0 {
                assert(p[k] == p1[p1.len() - 1]);
            } else {
                assert(p[k] == p2[j]);
            }
            assert(p[k + 1] == p2[j + 1]);
        }
    }
    assert(walk(g, p, ds));
    assert(p[0] == a);
    assert(p.last() == c) by {
        if p2.len() == 1 {
            assert(p.last() == p1.last());
        } else {
            assert(p.last() == p2.last());
        }
    }
}

/// The cell between two path cells side by side.
pub open spec fn between_across(a: int, b: int) -> bool {
    is_path(a - 1, b) && is_path(a + 1, b)
}

/// The cell between two path cells one above the other.
pub open spec fn between_along(a: int, b: int) -> bool {
    is_path(a, b - 1) && is_path(a, b + 1)
}

/// A cell that is not a path cell is never visited; between two path cells
/// it is open only along the line joining them, on both sides or neither,
/// and only where both path cells are open towards it; any other such cell
/// (the border and the pillars) keeps its four walls.
pub open spec fn framed(g: MazeGrid, a: int, b: int) -> bool {
    let c = g.at(a, b);
    &&& !c.visited
    &&& between_across(a, b) ==> {
        &&& c.walled(Direction::Up) && c.walled(Direction::Down)
        &&& c.walled(Direction::Left) == c.walled(Direction::Right)
        &&& !c.walled(Direction::Left) ==> !g.at(a - 1, b).walled(Direction::Right) && !g.at(a + 1, b).walled(
            Direction::Left,
        )
    }
    &&& between_along(a, b) ==> {
        &&& c.walled(Direction::Left) && c.walled(Direction::Right)
        &&& c.walled(Direction::Up) == c.walled(Direction::Down)
        &&& !c.walled(Direction::Up) ==> !g.at(a, b - 1).walled(Direction::Down) && !g.at(a, b + 1).walled(
            Direction::Up,
        )
    }
    &&& !between_across(a, b) && !between_along(a, b) ==> c.walls == 15
}

/// Every cell that is not a path cell is framed.
pub open spec fn frame_ok(g: MazeGrid) -> bool {
    forall|a: int, b: int| g.inside(a, b) && !is_path(a, b) ==> #[trigger] framed(g, a, b)
}

proof fn lemma_frame_mark(g0: MazeGrid, g1: MazeGrid, x: int, y: int)
    requires
        sized(g0),
        sized(g1),
        is_path(x, y),
        frame_ok(g0),
        forall|a: int, b: int|
            g0.inside(a, b) ==> #[trigger] g1.at(a, b) == if (a, b) == (x, y) {
                MazeCell { visited: true, ..g0.at(a, b) }
            } else {
                g0.at(a, b)
            },
    ensures
        frame_ok(g1),
{
    assert forall|a: int, b: int| g1.inside(a, b) && !is_path(a, b) implies #[trigger] framed(g1, a, b) by {
        assert(framed(g0, a, b));
        assert(g1.at(a, b) == g0.at(a, b));
        if between_across(a, b) {
            assert(g1.at(a - 1, b).walls == g0.at(a - 1, b).walls);
            assert(g1.at(a + 1, b).walls == g0.at(a + 1, b).walls);
        }
        if between_along(a, b) {
            assert(g1.at(a, b - 1).walls == g0.at(a, b - 1).walls);
            assert(g1.at(a, b + 1).walls == g0.at(a, b + 1).walls);
        }
    }
}

#[verifier::spinoff_prover]
#[verifier::rlimit(60)]
proof fn lemma_frame_knock(before: MazeGrid, mid: MazeGrid, x: int, y: int, d: Direction)
    requires
        sized(before),
        sized(mid),
        is_path(x, y),
        is_path(leap(x, y, d).0, leap(x, y, d).1),
        frame_ok(before),
        forall|a: int, b: int| before.inside(a, b) ==> (#[trigger] mid.at(a, b)).visited == before.at(a, b).visited,
        forall|a: int, b: int, e: Direction|
            before.inside(a, b) ==> #[trigger] mid.at(a, b).walled(e) == (before.at(a, b).walled(e) && !(((a, b) == (
                x,
                y,
            ) && e == d) || ((a, b) == step(x, y, d) && (e == d || e == d.opp())) || ((a, b) == leap(x, y, d) && e
                == d.opp()))),
        forall|a: int, b: int|
            before.inside(a, b) && (a, b) != (x, y) && (a, b) != step(x, y, d) && (a, b) != leap(x, y, d)
                ==> #[trigger] mid.at(a, b) == before.at(a, b),
    ensures
        frame_ok(mid),
{
    let m = step(x, y, d);
    let l = leap(x, y, d);
    assert forall|a: int, b: int| mid.inside(a, b) && !is_path(a, b) implies #[trigger] framed(mid, a, b) by {
        assert(framed(before, a, b));
        assert(before.inside(a, b));
        if (a, b) == m {
            let up = mid.at(a, b).walled(Direction::Up);
            let down = mid.at(a, b).walled(Direction::Down);
            let left = mid.at(a, b).walled(Direction::Left);
            let right = mid.at(a, b).walled(Direction::Right);
            assert(before.inside(x, y) && before.inside(l.0, l.1));
            let xl = mid.at(x, y).walled(d);
            let ll = mid.at(l.0, l.1).walled(d.opp());
            assert(!xl && !ll);
            if d == Direction::Left || d == Direction::Right {
                assert(between_across(a, b));
                assert(!between_along(a, b));
            } else {
                assert(between_along(a, b));
                assert(!between_across(a, b));
            }
        } else {
            assert((a, b) != (x, y) && (a, b) != l);
            assert(mid.at(a, b) == before.at(a, b));
            if between_across(a, b) {
                let lw = before.at(a - 1, b).walled(Direction::Right);
                let rw = before.at(a + 1, b).walled(Direction::Left);
                let lw2 = mid.at(a - 1, b).walled(Direction::Right);
                let rw2 = mid.at(a + 1, b).walled(Direction::Left);
            }
            if between_along(a, b) {
                let uw = before.at(a, b - 1).walled(Direction::Down);
                let dw = before.at(a, b + 1).walled(Direction::Up);
                let uw2 = mid.at(a, b - 1).walled(Direction::Down);
                let dw2 = mid.at(a, b + 1).walled(Direction::Up);
            }
        }
    }
}

/// Open sides of a cell.
pub open spec fn cell_ends(c: MazeCell) -> int {
    (if c.walled(Direction::Up) {
        0int
    } else {
        1
    }) + (if c.walled(Direction::Down) {
        0int
    } else {
        1
    }) + (if c.walled(Direction::Left) {
        0int
    } else {
        1
    }) + (if c.walled(Direction::Right) {
        0int
    } else {
        1
    })
}

/// Open sides of the path cells among the first `n` cells in column-major
/// order: each passage between two path cells counts once at each end.
pub open spec fn open_ends(g: MazeGrid, n: int) -> int
    decreases n,
{
    if n <= 0 {
        0
    } else {
        open_ends(g, n - 1) + if is_path((n - 1) / 21, (n - 1) % 21) {
            cell_ends(g.at((n - 1) / 21, (n - 1) % 21))
        } else {
            0
        }
    }
}

/// Path cells among the first `n` cells in column-major order.
pub open spec fn path_upto(n: int) -> int
    decreases n,
{
    if n <= 0 {
        0
    } else {
        path_upto(n - 1) + if is_path((n - 1) / 21, (n - 1) % 21) {
            1int
        } else {
            0
        }
    }
}

/// Every unvisited path cell but `e` still has its four walls.
pub open spec fn sealed_except(g: MazeGrid, e: (int, int)) -> bool {
    forall|a: int, b: int, d: Direction|
        is_path(a, b) && !g.at(a, b).visited && (a, b) != e ==> #[trigger] g.at(a, b).walled(d)
}

/// An open side of a path cell is a whole passage to the next path cell:
/// the cell in between is open along it and the far cell open back.
pub open spec fn full_passages(g: MazeGrid) -> bool {
    forall|a: int, b: int, d: Direction|
        is_path(a, b) && !(#[trigger] g.at(a, b).walled(d)) ==> !g.at(step(a, b, d).0, step(a, b, d).1).walled(d)
            && is_path(leap(a, b, d).0, leap(a, b, d).1) && !g.at(leap(a, b, d).0, leap(a, b, d).1).walled(d.opp())
}

/// Carving from `g0` to `g`: unvisited path cells closed, passages whole,
/// and one passage (two open ends) per newly visited cell but the first.
pub open spec fn tree_progress(g0: MazeGrid, g: MazeGrid) -> bool {
    &&& sealed_except(g, (-1, -1))
    &&& full_passages(g)
    &&& open_ends(g, 441) == open_ends(g0, 441) + 2 * (unvisited_upto(g0, 441) - unvisited_upto(g, 441)) - 2
}

proof fn lemma_open_ends_same(g0: MazeGrid, g1: MazeGrid, n: int)
    requires
        sized(g0),
        sized(g1),
        0 <= n <= 441,
        forall|a: int, b: int| is_path(a, b) ==> #[trigger] cell_ends(g1.at(a, b)) == cell_ends(g0.at(a, b)),
    ensures
        open_ends(g1, n) == open_ends(g0, n),
    decreases n,
{
    if n > 0 {
        lemma_open_ends_same(g0, g1, n - 1);
        let (c, r) = ((n - 1) / 21, (n - 1) % 21);
        if is_path(c, r) {
            assert(cell_ends(g1.at(c, r)) == cell_ends(g0.at(c, r)));
        }
    }
}

proof fn lemma_open_ends_two(g0: MazeGrid, g1: MazeGrid, p: (int, int), q: (int, int), n: int)
    requires
        sized(g0),
        sized(g1),
        0 <= n <= 441,
        is_path(p.0, p.1),
        is_path(q.0, q.1),
        p != q,
        forall|a: int, b: int|
            is_path(a, b) ==> #[trigger] cell_ends(g1.at(a, b)) == cell_ends(g0.at(a, b)) + (if (a, b) == p {
                1int
            } else {
                0
            }) + (if (a, b) == q {
                1int
            } else {
                0
            }),
    ensures
        open_ends(g1, n) == open_ends(g0, n) + (if p.0 * 21 + p.1 < n {
            1int
        } else {
            0
        }) + (if q.0 * 21 + q.1 < n {
            1int
        } else {
            0
        }),
    decreases n,
{
    if n > 0 {
        lemma_open_ends_two(g0, g1, p, q, n - 1);
        let (c, r) = ((n - 1) / 21, (n - 1) % 21);
        if is_path(c, r) {
            assert(cell_ends(g1.at(c, r)) == cell_ends(g0.at(c, r)) + (if (c, r) == p {
                1int
            } else {
                0
            }) + (if (c, r) == q {
                1int
            } else {
                0
            }));
        }
        if n - 1 == p.0 * 21 + p.1 {
            assert((c, r) == p);
        }
        if n - 1 == q.0 * 21 + q.1 {
            assert((c, r) == q);
        }
        if (c, r) == p {
            assert(n - 1 == p.0 * 21 + p.1);
        }
        if (c, r) == q {
            assert(n - 1 == q.0 * 21 + q.1);
        }
    }
}

proof fn lemma_unvisited_mark(a: MazeGrid, b: MazeGrid, x: int, y: int, n: int)
    requires
        sized(a),
        sized(b),
        0 <= x < 21,
        0 <= y < 21,
        !a.at(x, y).visited,
        b.at(x, y).visited,
        forall|c: int, r: int| a.inside(c, r) && (c, r) != (x, y) ==> (#[trigger] b.at(c, r)).visited == a.at(c, r).visited,
        0 <= n <= 441,
    ensures
        unvisited_upto(b, n) == unvisited_upto(a, n) - if x * 21 + y < n {
            1int
        } else {
            0
        },
    decreases n,
{
    if n > 0 {
        lemma_unvisited_mark(a, b, x, y, n - 1);
        let c = (n - 1) / 21;
        let r = (n - 1) % 21;
        assert(a.inside(c, r));
        if (c, r) != (x, y) {
            assert(b.at(c, r).visited == a.at(c, r).visited);
        }
        if n - 1 == x * 21 + y {
            assert(c == x && r == y);
        }
        if c == x && r == y {
            assert(n - 1 == x * 21 + y);
        }
    }
}

proof fn lemma_unvisited_same(a: MazeGrid, b: MazeGrid, n: int)
    requires
        sized(a),
        sized(b),
        forall|c: int, r: int| a.inside(c, r) ==> (#[trigger] b.at(c, r)).visited == a.at(c, r).visited,
        0 <= n <= 441,
    ensures
        unvisited_upto(b, n) == unvisited_upto(a, n),
    decreases n,
{
    if n > 0 {
        lemma_unvisited_same(a, b, n - 1);
        let c = (n - 1) / 21;
        let r = (n - 1) % 21;
        assert(a.inside(c, r));
        assert(b.at(c, r).visited == a.at(c, r).visited);
    }
}

/// Marking the first cell of a carve visited starts the count.
#[verifier::spinoff_prover]
#[verifier::rlimit(50)]
proof fn lemma_mark_tree(g0: MazeGrid, g1: MazeGrid, x: int, y: int)
    requires
        sized(g0),
        sized(g1),
        is_path(x, y),
        sealed_except(g0, (x, y)),
        full_passages(g0),
        !g0.at(x, y).visited,
        forall|a: int, b: int|
            g0.inside(a, b) ==> #[trigger] g1.at(a, b) == if (a, b) == (x, y) {
                MazeCell { visited: true, ..g0.at(a, b) }
            } else {
                g0.at(a, b)
            },
    ensures
        tree_progress(g0, g1),
        unvisited_upto(g1, 441) == unvisited_upto(g0, 441) - 1,
{
    assert forall|a: int, b: int, d: Direction|
        is_path(a, b) && !g1.at(a, b).visited && (a, b) != (-1int, -1int) implies #[trigger] g1.at(a, b).walled(d) by {
        assert(g1.at(a, b) == g0.at(a, b));
    }
    assert forall|a: int, b: int, d: Direction| is_path(a, b) && !(#[trigger] g1.at(a, b).walled(d)) implies !g1.at(
        step(a, b, d).0,
        step(a, b, d).1,
    ).walled(d) && is_path(leap(a, b, d).0, leap(a, b, d).1) && !g1.at(leap(a, b, d).0, leap(a, b, d).1).walled(
        d.opp(),
    ) by {
        assert(g1.at(a, b).walls == g0.at(a, b).walls);
        assert(!g0.at(a, b).walled(d));
        let (sa, sb) = step(a, b, d);
        let (la, lb) = leap(a, b, d);
        assert(g0.inside(sa, sb));
        assert(g1.at(sa, sb).walls == g0.at(sa, sb).walls);
        assert(g1.at(la, lb).walls == g0.at(la, lb).walls);
    }
    assert forall|a: int, b: int| is_path(a, b) implies #[trigger] cell_ends(g1.at(a, b)) == cell_ends(g0.at(a, b)) by {
        assert(g1.at(a, b).walls == g0.at(a, b).walls);
    }
    lemma_open_ends_same(g0, g1, 441);
    lemma_unvisited_mark(g0, g1, x, y, 441);
}

/// Knocking through from a visited `(x, y)` to an unvisited path cell adds
/// exactly one passage (two open ends) and keeps passages whole.
proof fn lemma_knock_tree(before: MazeGrid, mid: MazeGrid, x: int, y: int, d: Direction)
    requires
        sized(before),
        sized(mid),
        is_path(x, y),
        is_path(leap(x, y, d).0, leap(x, y, d).1),
        before.at(x, y).visited,
        !before.at(leap(x, y, d).0, leap(x, y, d).1).visited,
        sealed_except(before, (-1, -1)),
        full_passages(before),
        forall|a: int, b: int| before.inside(a, b) ==> (#[trigger] mid.at(a, b)).visited == before.at(a, b).visited,
        forall|a: int, b: int, e: Direction|
            before.inside(a, b) ==> #[trigger] mid.at(a, b).walled(e) == (before.at(a, b).walled(e) && !(((a, b) == (
                x,
                y,
            ) && e == d) || ((a, b) == step(x, y, d) && (e == d || e == d.opp())) || ((a, b) == leap(x, y, d) && e
                == d.opp()))),
    ensures
        sealed_except(mid, leap(x, y, d)),
        full_passages(mid),
        open_ends(mid, 441) == open_ends(before, 441) + 2,
        unvisited_upto(mid, 441) == unvisited_upto(before, 441),
{
    lemma_knock_sealed(before, mid, x, y, d);
    lemma_knock_full(before, mid, x, y, d);
    lemma_knock_was_closed(before, x, y, d);
    lemma_knock_ends(before, mid, x, y, d);
    lemma_unvisited_same(before, mid, 441);
}

/// The wall of `(x, y)` towards an unvisited path cell is standing.
proof fn lemma_knock_was_closed(before: MazeGrid, x: int, y: int, d: Direction)
    requires
        sized(before),
        is_path(x, y),
        is_path(leap(x, y, d).0, leap(x, y, d).1),
        !before.at(leap(x, y, d).0, leap(x, y, d).1).visited,
        sealed_except(before, (-1, -1)),
        full_passages(before),
    ensures
        before.at(x, y).walled(d),
        before.at(leap(x, y, d).0, leap(x, y, d).1).walled(d.opp()),
{
    let l = leap(x, y, d);
    assert(before.at(l.0, l.1).walled(d.opp()));
    if !before.at(x, y).walled(d) {
        assert(!before.at(l.0, l.1).walled(d.opp()));
    }
}

#[verifier::spinoff_prover]
proof fn lemma_knock_sealed(before: MazeGrid, mid: MazeGrid, x: int, y: int, d: Direction)
    requires
        sized(before),
        sized(mid),
        is_path(x, y),
        is_path(leap(x, y, d).0, leap(x, y, d).1),
        before.at(x, y).visited,
        !before.at(leap(x, y, d).0, leap(x, y, d).1).visited,
        sealed_except(before, (-1, -1)),
        full_passages(before),
        forall|a: int, b: int| before.inside(a, b) ==> (#[trigger] mid.at(a, b)).visited == before.at(a, b).visited,
        forall|a: int, b: int, e: Direction|
            before.inside(a, b) ==> #[trigger] mid.at(a, b).walled(e) == (before.at(a, b).walled(e) && !(((a, b) == (
                x,
                y,
            ) && e == d) || ((a, b) == step(x, y, d) && (e == d || e == d.opp())) || ((a, b) == leap(x, y, d) && e
                == d.opp()))),
    ensures
        sealed_except(mid, leap(x, y, d)),
{
    let l = leap(x, y, d);
    assert forall|a: int, b: int, e: Direction|
        is_path(a, b) && !mid.at(a, b).visited && (a, b) != l implies #[trigger] mid.at(a, b).walled(e) by {
        assert(before.inside(a, b));
        assert(!before.at(a, b).visited);
        assert((a, b) != (x, y));
        assert((a, b) != step(x, y, d));
        assert(before.at(a, b).walled(e));
    }
}

#[verifier::spinoff_prover]
#[verifier::rlimit(50)]
proof fn lemma_knock_full(before: MazeGrid, mid: MazeGrid, x: int, y: int, d: Direction)
    requires
        sized(before),
        sized(mid),
        is_path(x, y),
        is_path(leap(x, y, d).0, leap(x, y, d).1),
        before.at(x, y).visited,
        !before.at(leap(x, y, d).0, leap(x, y, d).1).visited,
        sealed_except(before, (-1, -1)),
        full_passages(before),
        forall|a: int, b: int| before.inside(a, b) ==> (#[trigger] mid.at(a, b)).visited == before.at(a, b).visited,
        forall|a: int, b: int, e: Direction|
            before.inside(a, b) ==> #[trigger] mid.at(a, b).walled(e) == (before.at(a, b).walled(e) && !(((a, b) == (
                x,
                y,
            ) && e == d) || ((a, b) == step(x, y, d) && (e == d || e == d.opp())) || ((a, b) == leap(x, y, d) && e
                == d.opp()))),
    ensures
        full_passages(mid),
{
    let l = leap(x, y, d);
    let m = step(x, y, d);
    lemma_knock_was_closed(before, x, y, d);
    assert forall|a: int, b: int, e: Direction| is_path(a, b) && !(#[trigger] mid.at(a, b).walled(e)) implies !mid.at(
        step(a, b, e).0,
        step(a, b, e).1,
    ).walled(e) && is_path(leap(a, b, e).0, leap(a, b, e).1) && !mid.at(leap(a, b, e).0, leap(a, b, e).1).walled(
        e.opp(),
    ) by {
        let (sa, sb) = step(a, b, e);
        let (la, lb) = leap(a, b, e);
        assert(before.inside(a, b));
        if !before.at(a, b).walled(e) {
            assert(before.inside(sa, sb));
            assert(before.inside(la, lb));
            assert(!before.at(sa, sb).walled(e));
            assert(!before.at(la, lb).walled(e.opp()));
            assert(mid.at(sa, sb).walled(e) ==> before.at(sa, sb).walled(e));
            assert(mid.at(la, lb).walled(e.opp()) ==> before.at(la, lb).walled(e.opp()));
        } else if (a, b) == (x, y) {
            assert(e == d);
            assert(before.inside(m.0, m.1));
            assert(!mid.at(m.0, m.1).walled(d));
            assert(!mid.at(l.0, l.1).walled(d.opp()));
        } else {
            assert((a, b) == l && e == d.opp());
            assert(step(a, b, e) == m);
            assert(leap(a, b, e) == (x, y));
            assert(e.opp() == d);
            assert(before.inside(m.0, m.1));
            assert(!mid.at(m.0, m.1).walled(e));
            assert(!mid.at(x, y).walled(d));
        }
    }
}

proof fn lemma_cell_opened(c0: MazeCell, c1: MazeCell, d: Direction)
    requires
        c0.walled(d),
        !c1.walled(d),
        forall|e: Direction| e != d ==> #[trigger] c1.walled(e) == c0.walled(e),
    ensures
        cell_ends(c1) == cell_ends(c0) + 1,
{
    assert(c1.walled(Direction::Up) == c0.walled(Direction::Up) || d == Direction::Up);
    assert(c1.walled(Direction::Down) == c0.walled(Direction::Down) || d == Direction::Down);
    assert(c1.walled(Direction::Left) == c0.walled(Direction::Left) || d == Direction::Left);
    assert(c1.walled(Direction::Right) == c0.walled(Direction::Right) || d == Direction::Right);
}

proof fn lemma_cell_kept(c0: MazeCell, c1: MazeCell)
    requires
        forall|e: Direction| #[trigger] c1.walled(e) == c0.walled(e),
    ensures
        cell_ends(c1) == cell_ends(c0),
{
    assert(c1.walled(Direction::Up) == c0.walled(Direction::Up));
    assert(c1.walled(Direction::Down) == c0.walled(Direction::Down));
    assert(c1.walled(Direction::Left) == c0.walled(Direction::Left));
    assert(c1.walled(Direction::Right) == c0.walled(Direction::Right));
}

#[verifier::spinoff_prover]
proof fn lemma_knock_ends(before: MazeGrid, mid: MazeGrid, x: int, y: int, d: Direction)
    requires
        sized(before),
        sized(mid),
        is_path(x, y),
        is_path(leap(x, y, d).0, leap(x, y, d).1),
        before.at(x, y).walled(d),
        before.at(leap(x, y, d).0, leap(x, y, d).1).walled(d.opp()),
        forall|a: int, b: int, e: Direction|
            before.inside(a, b) ==> #[trigger] mid.at(a, b).walled(e) == (before.at(a, b).walled(e) && !(((a, b) == (
                x,
                y,
            ) && e == d) || ((a, b) == step(x, y, d) && (e == d || e == d.opp())) || ((a, b) == leap(x, y, d) && e
                == d.opp()))),
    ensures
        open_ends(mid, 441) == open_ends(before, 441) + 2,
{
    let l = leap(x, y, d);
    let m = step(x, y, d);
    assert forall|a: int, b: int| is_path(a, b) implies #[trigger] cell_ends(mid.at(a, b)) == cell_ends(before.at(a, b))
        + (if (a, b) == (x, y) {
        1int
    } else {
        0
    }) + (if (a, b) == l {
        1int
    } else {
        0
    }) by {
        assert(before.inside(a, b));
        assert((a, b) != m);
        if (a, b) == (x, y) {
            assert forall|e: Direction| e != d implies #[trigger] mid.at(a, b).walled(e) == before.at(a, b).walled(e) by {
                assert(mid.at(a, b).walled(e) == (before.at(a, b).walled(e) && !(((a, b) == (x, y) && e == d) || ((a, b)
                    == m && (e == d || e == d.opp())) || ((a, b) == l && e == d.opp()))));
            }
            assert(!mid.at(a, b).walled(d));
            lemma_cell_opened(before.at(a, b), mid.at(a, b), d);
        } else if (a, b) == l {
            assert forall|e: Direction| e != d.opp() implies #[trigger] mid.at(a, b).walled(e) == before.at(a, b).walled(
                e,
            ) by {
                assert(mid.at(a, b).walled(e) == (before.at(a, b).walled(e) && !(((a, b) == (x, y) && e == d) || ((a, b)
                    == m && (e == d || e == d.opp())) || ((a, b) == l && e == d.opp()))));
            }
            assert(!mid.at(a, b).walled(d.opp()));
            lemma_cell_opened(before.at(a, b), mid.at(a, b), d.opp());
        } else {
            assert forall|e: Direction| #[trigger] mid.at(a, b).walled(e) == before.at(a, b).walled(e) by {
                assert(mid.at(a, b).walled(e) == (before.at(a, b).walled(e) && !(((a, b) == (x, y) && e == d) || ((a, b)
                    == m && (e == d || e == d.opp())) || ((a, b) == l && e == d.opp()))));
            }
            lemma_cell_kept(before.at(a, b), mid.at(a, b));
        }
    }
    lemma_open_ends_two(before, mid, (x, y), l, 441);
}

proof fn lemma_path_column(x: int, r: int)
    requires
        0 <= x < 21,
        0 <= r <= 21,
    ensures
        path_upto(21 * x + r) == path_upto(21 * x) + if x % 2 == 1 {
            r / 2
        } else {
            0
        },
    decreases r,
{
    if r > 0 {
        lemma_path_column(x, r - 1);
        assert((21 * x + r - 1) / 21 == x);
        assert((21 * x + r - 1) % 21 == r - 1);
    }
}

proof fn lemma_path_columns(k: int)
    requires
        0 <= k <= 21,
    ensures
        path_upto(21 * k) == 10 * (k / 2),
    decreases k,
{
    if k > 0 {
        lemma_path_columns(k - 1);
        lemma_path_column(k - 1, 21);
    }
}

/// The 21x21 grid has 100 path cells.
proof fn lemma_hundred_paths()
    ensures
        path_upto(441) == 100,
{
    lemma_path_columns(21);
}

/// With every path cell visited and nothing else, the visited cells are
/// the path cells.
proof fn lemma_visited_are_paths(g: MazeGrid, n: int)
    requires
        sized(g),
        0 <= n <= 441,
        forall|x: int, y: int| is_path(x, y) ==> #[trigger] g.at(x, y).visited,
        visits_paths_only(g),
    ensures
        n - unvisited_upto(g, n) == path_upto(n),
    decreases n,
{
    if n > 0 {
        lemma_visited_are_paths(g, n - 1);
        let c = (n - 1) / 21;
        let r = (n - 1) % 21;
        assert(g.inside(c, r));
        if is_path(c, r) {
            assert(g.at(c, r).visited);
        }
    }
}

proof fn lemma_closed_ends(g: MazeGrid, n: int)
    requires
        sized(g),
        0 <= n <= 441,
        forall|a: int, b: int, e: Direction| g.inside(a, b) ==> #[trigger] g.at(a, b).walled(e),
    ensures
        open_ends(g, n) == 0,
    decreases n,
{
    if n > 0 {
        lemma_closed_ends(g, n - 1);
        let c = (n - 1) / 21;
        let r = (n - 1) % 21;
        assert(g.inside(c, r));
        assert(g.at(c, r).walled(Direction::Up) && g.at(c, r).walled(Direction::Down) && g.at(c, r).walled(
            Direction::Left,
        ) && g.at(c, r).walled(Direction::Right));
    }
}

proof fn lemma_none_visited(g: MazeGrid, n: int)
    requires
        sized(g),
        0 <= n <= 441,
        forall|a: int, b: int| g.inside(a, b) ==> !(#[trigger] g.at(a, b)).visited,
    ensures
        unvisited_upto(g, n) == n,
    decreases n,
{
    if n > 0 {
        lemma_none_visited(g, n - 1);
        assert(g.inside((n - 1) / 21, (n - 1) % 21));
    }
}

/// Cells visited in `a` stay visited in `b`.
pub open spec fn keeps_visits(a: MazeGrid, b: MazeGrid) -> bool {
    forall|x: int, y: int| a.inside(x, y) && a.at(x, y).visited ==> (#[trigger] b.at(x, y)).visited
}

/// Every path cell visited in `b` but not in `a`, other than `except`, has
/// all its neighbouring path cells visited in `b`.
pub open spec fn closed_since(a: MazeGrid, b: MazeGrid, except: (int, int)) -> bool {
    forall|x: int, y: int, d: Direction|
        is_path(x, y) && (#[trigger] b.at(x, y)).visited && !a.at(x, y).visited && (x, y) != except && is_path(
            leap(x, y, d).0,
            leap(x, y, d).1,
        ) ==> #[trigger] b.at(leap(x, y, d).0, leap(x, y, d).1).visited
}

proof fn lemma_unvisited(a: MazeGrid, b: MazeGrid, x: int, y: int, n: int)
    requires
        sized(a),
        sized(b),
        keeps_visits(a, b),
        0 <= x < 21,
        0 <= y < 21,
        !a.at(x, y).visited,
        b.at(x, y).visited,
        0 <= n <= 441,
    ensures
        unvisited_upto(b, n) + (if x * 21 + y < n {
            1int
        } else {
            0
        }) <= unvisited_upto(a, n),
        unvisited_upto(b, n) >= 0,
    decreases n,
{
    if n > 0 {
        lemma_unvisited(a, b, x, y, n - 1);
        let c = (n - 1) / 21;
        let r = (n - 1) % 21;
        assert(a.inside(c, r));
        if a.at(c, r).visited {
            assert(b.at(c, r).visited);
        }
        if n - 1 == x * 21 + y {
            assert(c == x && r == y);
        }
    }
}

/// Knocking down the wall between `(x, y)` and `(nx, ny)` (two steps
/// towards `d`) keeps every opening a two-way passage.
proof fn lemma_open_passage(g0: MazeGrid, g1: MazeGrid, x: int, y: int, d: Direction)
    requires
        sized(g0),
        sized(g1),
        passages_ok(g0),
        is_path(x, y),
        is_path(leap(x, y, d).0, leap(x, y, d).1),
        forall|a: int, b: int, e: Direction|
            g0.inside(a, b) ==> #[trigger] g1.at(a, b).walled(e) == (g0.at(a, b).walled(e) && !(((a, b) == (x, y)
                && e == d) || ((a, b) == step(x, y, d) && (e == d || e == d.opp())) || ((a, b) == leap(x, y, d)
                && e == d.opp()))),
    ensures
        passages_ok(g1),
{
    assert forall|a: int, b: int, e: Direction| g1.inside(a, b) && !(#[trigger] g1.at(a, b).walled(e)) implies g1.inside(
        step(a, b, e).0,
        step(a, b, e).1,
    ) && !g1.at(step(a, b, e).0, step(a, b, e).1).walled(e.opp()) by {
        if !g0.at(a, b).walled(e) {
            let (c, r) = step(a, b, e);
            assert(g0.inside(c, r) && !g0.at(c, r).walled(e.opp()));
            assert(g1.at(c, r).walled(e.opp()) == (g0.at(c, r).walled(e.opp()) && !(((c, r) == (x, y) && e.opp()
                == d) || ((c, r) == step(x, y, d) && (e.opp() == d || e.opp() == d.opp())) || ((c, r) == leap(
                x,
                y,
                d,
            ) && e.opp() == d.opp()))));
        } else {
            let (c, r) = step(a, b, e);
            assert(g1.at(c, r).walled(e.opp()) == (g0.at(c, r).walled(e.opp()) && !(((c, r) == (x, y) && e.opp()
                == d) || ((c, r) == step(x, y, d) && (e.opp() == d || e.opp() == d.opp())) || ((c, r) == leap(
                x,
                y,
                d,
            ) && e.opp() == d.opp()))));
        }
    }
}

/// Knocks down the walls between path cell `(x, y)` and the path cell two
/// steps towards `dir`: the wall of `(x, y)` towards `dir`, both walls of the
/// cell in between along that line, and the wall of the far cell back.
#[verifier::rlimit(60)]
#[verifier::spinoff_prover]
fn knock_through(maze: &mut MazeGrid, x: usize, y: usize, dir: Direction)
    requires
        sized(*old(maze)),
        passages_ok(*old(maze)),
        is_path(x as int, y as int),
        is_path(leap(x as int, y as int, dir).0, leap(x as int, y as int, dir).1),
    ensures
        sized(*final(maze)),
        passages_ok(*final(maze)),
        forall|a: int, b: int|
            old(maze).inside(a, b) ==> (#[trigger] final(maze).at(a, b)).visited == old(maze).at(a, b).visited,
        forall|a: int, b: int, e: Direction|
            old(maze).inside(a, b) ==> #[trigger] final(maze).at(a, b).walled(e) == (old(maze).at(a, b).walled(e)
                && !(((a, b) == (x as int, y as int) && e == dir) || ((a, b) == step(x as int, y as int, dir) && (e
                == dir || e == dir.opp())) || ((a, b) == leap(x as int, y as int, dir) && e == dir.opp()))),
        forall|a: int, b: int|
            old(maze).inside(a, b) && (a, b) != (x as int, y as int) && (a, b) != step(x as int, y as int, dir) && (a,
                b) != leap(x as int, y as int, dir) ==> #[trigger] final(maze).at(a, b) == old(maze).at(a, b),
{
    let ghost g0 = *maze;
    let (dx, dy) = dir.delta();
    let wall_x = (x as isize + dx) as usize;
    let wall_y = (y as isize + dy) as usize;
    let nx = (x as isize + dx * 2) as usize;
    let ny = (y as isize + dy * 2) as usize;
    assert((wall_x as int, wall_y as int) == step(x as int, y as int, dir));
    assert((nx as int, ny as int) == leap(x as int, y as int, dir));
    clear_wall(maze, x, y, dir);
    let ghost g1 = *maze;
    clear_walls(maze, wall_x, wall_y, dir, dir.opposite());
    let ghost g2 = *maze;
    clear_wall(maze, nx, ny, dir.opposite());
    proof {
        assert forall|a: int, b: int, e: Direction| g0.inside(a, b) implies #[trigger] maze.at(a, b).walled(e) == (
            g0.at(a, b).walled(e) && !(((a, b) == (x as int, y as int) && e == dir) || ((a, b) == step(
                x as int,
                y as int,
                dir,
            ) && (e == dir || e == dir.opp())) || ((a, b) == leap(x as int, y as int, dir) && e == dir.opp()))) by {
            assert(g1.at(a, b).walled(e) == (g0.at(a, b).walled(e) && !((a, b) == (x as int, y as int) && e == dir)));
            assert(g2.at(a, b).walled(e) == (g1.at(a, b).walled(e) && !((a, b) == step(x as int, y as int, dir) && (e
                == dir || e == dir.opp()))));
        }
        lemma_open_passage(g0, *maze, x as int, y as int, dir);
    }
}

/// Knocks down the wall towards `d` of the cell at `(x, y)`.
fn clear_wall(maze: &mut MazeGrid, x: usize, y: usize, d: Direction)
    requires
        sized(*old(maze)),
        old(maze).inside(x as int, y as int),
    ensures
        sized(*final(maze)),
        forall|a: int, b: int|
            old(maze).inside(a, b) ==> (#[trigger] final(maze).at(a, b)).visited == old(maze).at(a, b).visited,
        forall|a: int, b: int, e: Direction|
            old(maze).inside(a, b) ==> #[trigger] final(maze).at(a, b).walled(e) == (old(maze).at(a, b).walled(e)
                && !((a, b) == (x as int, y as int) && e == d)),
        forall|a: int, b: int|
            old(maze).inside(a, b) && (a, b) != (x as int, y as int) ==> #[trigger] final(maze).at(a, b) == old(
                maze,
            ).at(a, b),
{
    if let Some(cell) = maze.get_cell_mut(x, y) {
        cell.remove_wall(d);
    }
}

/// Knocks down the walls towards `d1` and `d2` of the cell at `(x, y)`.
fn clear_walls(maze: &mut MazeGrid, x: usize, y: usize, d1: Direction, d2: Direction)
    requires
        sized(*old(maze)),
        old(maze).inside(x as int, y as int),
    ensures
        sized(*final(maze)),
        forall|a: int, b: int|
            old(maze).inside(a, b) ==> (#[trigger] final(maze).at(a, b)).visited == old(maze).at(a, b).visited,
        forall|a: int, b: int, e: Direction|
            old(maze).inside(a, b) ==> #[trigger] final(maze).at(a, b).walled(e) == (old(maze).at(a, b).walled(e)
                && !((a, b) == (x as int, y as int) && (e == d1 || e == d2))),
        forall|a: int, b: int|
            old(maze).inside(a, b) && (a, b) != (x as int, y as int) ==> #[trigger] final(maze).at(a, b) == old(
                maze,
            ).at(a, b),
{
    if let Some(cell) = maze.get_cell_mut(x, y) {
        cell.remove_wall(d1);
        cell.remove_wall(d2);
    }
}

/// Marks `(x, y)` visited, then tries the four directions in a random
/// order: towards each path cell two steps away that is not visited yet, it
/// knocks down the walls in between and carves on from there.
#[verifier::spinoff_prover]
fn carve(maze: &mut MazeGrid, x: usize, y: usize, Ghost(budget): Ghost<int>)
    requires
        sized(*old(maze)),
        is_path(x as int, y as int),
        !old(maze).at(x as int, y as int).visited,
        passages_ok(*old(maze)),
        visits_paths_only(*old(maze)),
        sealed_except(*old(maze), (x as int, y as int)),
        full_passages(*old(maze)),
        frame_ok(*old(maze)),
        budget == unvisited_upto(*old(maze), 441),
    ensures
        tree_progress(*old(maze), *final(maze)),
        frame_ok(*final(maze)),
        sized(*final(maze)),
        passages_ok(*final(maze)),
        visits_paths_only(*final(maze)),
        final(maze).at(x as int, y as int).visited,
        keeps_visits(*old(maze), *final(maze)),
        closed_since(*old(maze), *final(maze), (-1, -1)),
        opens_more(*old(maze), *final(maze)),
        forall|a: int, b: int|
            old(maze).inside(a, b) && (#[trigger] final(maze).at(a, b)).visited && !old(maze).at(a, b).visited ==> joined(
                *final(maze),
                (x as int, y as int),
                (a, b),
            ),
    decreases budget,
{
    let ghost g0 = *maze;
    if let Some(cell) = maze.get_cell_mut(x, y) {
        cell.visited = true;
    }
    assert(keeps_visits(g0, *maze));
    proof {
        assert forall|a: int, b: int| g0.inside(a, b) implies #[trigger] maze.at(a, b) == if (a, b) == (x as int, y as int) {
            MazeCell { visited: true, ..g0.at(a, b) }
        } else {
            g0.at(a, b)
        } by {}
        lemma_mark_tree(g0, *maze, x as int, y as int);
        lemma_frame_mark(g0, *maze, x as int, y as int);
        assert forall|a: int, b: int, e: Direction| g0.inside(a, b) && !(#[trigger] g0.at(a, b).walled(e)) implies !maze.at(
            a,
            b,
        ).walled(e) by {
            assert(maze.at(a, b).walls == g0.at(a, b).walls);
        }
        assert forall|a: int, b: int|
            g0.inside(a, b) && (#[trigger] maze.at(a, b)).visited && !g0.at(a, b).visited implies joined(
            *maze,
            (x as int, y as int),
            (a, b),
        ) by {
            assert((a, b) == (x as int, y as int));
            lemma_joined_refl(*maze, (a, b));
        }
        assert forall|a: int, b: int, e: Direction| maze.inside(a, b) && !(#[trigger] maze.at(a, b).walled(e)) implies maze.inside(
            step(a, b, e).0,
            step(a, b, e).1,
        ) && !maze.at(step(a, b, e).0, step(a, b, e).1).walled(e.opp()) by {
            assert(maze.at(a, b).walls == g0.at(a, b).walls);
            assert(!g0.at(a, b).walled(e));
            assert(maze.at(step(a, b, e).0, step(a, b, e).1).walls == g0.at(step(a, b, e).0, step(a, b, e).1).walls);
        }
    }
    let mut directions: Vec<Direction> = Vec::new();
    directions.push(DIRECTIONS[0]);
    directions.push(DIRECTIONS[1]);
    directions.push(DIRECTIONS[2]);
    directions.push(DIRECTIONS[3]);
    let ghost all = directions@;
    assert(all =~= seq![Direction::Up, Direction::Down, Direction::Left, Direction::Right]);
    shuffle(&mut directions);
    let mut i: usize = 0;
    while i < directions.len()
        invariant
            i <= directions@.len(),
            directions@.to_multiset() == all.to_multiset(),
            all == seq![Direction::Up, Direction::Down, Direction::Left, Direction::Right],
            is_path(x as int, y as int),
            sized(g0),
            budget == unvisited_upto(g0, 441),
            !g0.at(x as int, y as int).visited,
            sized(*maze),
            passages_ok(*maze),
            visits_paths_only(*maze),
            maze.at(x as int, y as int).visited,
            keeps_visits(g0, *maze),
            closed_since(g0, *maze, (x as int, y as int)),
            opens_more(g0, *maze),
            tree_progress(g0, *maze),
            frame_ok(*maze),
            forall|a: int, b: int|
                g0.inside(a, b) && (#[trigger] maze.at(a, b)).visited && !g0.at(a, b).visited ==> joined(
                    *maze,
                    (x as int, y as int),
                    (a, b),
                ),
            forall|k: int|
                0 <= k < i && is_path(leap(x as int, y as int, directions@[k]).0, leap(x as int, y as int, directions@[k]).1)
                    ==> #[trigger] maze.at(
                    leap(x as int, y as int, directions@[k]).0,
                    leap(x as int, y as int, directions@[k]).1,
                ).visited,
        decreases directions.len() - i,
    {
        let ghost before = *maze;
        let dir = directions[i];
        let (dx, dy) = dir.delta();
        let nx = x as isize + dx * 2;
        let ny = y as isize + dy * 2;
        if maze.is_valid_cell(nx, ny) {
            let (nx, ny) = (nx as usize, ny as usize);
            assert((nx as int, ny as int) == leap(x as int, y as int, dir));
            if let Some(next_cell) = maze.get_cell(nx, ny) {
                if !next_cell.visited {
                    knock_through(maze, x, y, dir);
                    proof {
                        lemma_knock_tree(before, *maze, x as int, y as int, dir);
                        lemma_frame_knock(before, *maze, x as int, y as int, dir);
                        lemma_unvisited(g0, *maze, x as int, y as int, 441);
                        assert(unvisited_upto(*maze, 441) < unvisited_upto(g0, 441));
                    }
                    let ghost mid = *maze;
                    let ghost budget_next = unvisited_upto(*maze, 441);
                    carve(maze, nx, ny, Ghost(budget_next));
                    proof {
                        assert forall|a: int, b: int| g0.inside(a, b) && g0.at(a, b).visited implies (#[trigger] maze.at(a, b)).visited by {
                            assert(mid.at(a, b).visited);
                        }
                        lemma_step_joins(g0, before, mid, *maze, x as int, y as int, dir);
                        lemma_tree_step(g0, before, mid, *maze);
                        assert forall|a: int, b: int, e: Direction|
                            is_path(a, b) && (#[trigger] maze.at(a, b)).visited && !g0.at(a, b).visited && (a, b) != (
                                x as int,
                                y as int,
                            ) && is_path(leap(a, b, e).0, leap(a, b, e).1) implies #[trigger] maze.at(
                            leap(a, b, e).0,
                            leap(a, b, e).1,
                        ).visited by {
                            if mid.at(a, b).visited {
                                assert(mid.at(leap(a, b, e).0, leap(a, b, e).1).visited);
                            }
                        }
                    }
                }
            }
        }
        proof {
            assert forall|k: int|
                0 <= k < i + 1 && is_path(leap(x as int, y as int, directions@[k]).0, leap(x as int, y as int, directions@[k]).1)
                    implies #[trigger] maze.at(
                leap(x as int, y as int, directions@[k]).0,
                leap(x as int, y as int, directions@[k]).1,
            ).visited by {
                if k < i {
                    let (a, b) = leap(x as int, y as int, directions@[k]);
                    assert(before.at(a, b).visited);
                }
            }
        }
        i += 1;
    }
    proof {
        assert forall|e: Direction| is_path(leap(x as int, y as int, e).0, leap(x as int, y as int, e).1) implies #[trigger] maze.at(
            leap(x as int, y as int, e).0,
            leap(x as int, y as int, e).1,
        ).visited by {
            assert(all.contains(e)) by {
                if e == Direction::Up {
                    assert(all[0] == e);
                } else if e == Direction::Down {
                    assert(all[1] == e);
                } else if e == Direction::Left {
                    assert(all[2] == e);
                } else {
                    assert(all[3] == e);
                }
            }
            all.to_multiset_ensures();
            directions@.to_multiset_ensures();
            assert(all.to_multiset().count(e) > 0);
            assert(directions@.contains(e));
            let k = choose|k: int| 0 <= k < directions@.len() && directions@[k] == e;
            assert(directions@[k] == e);
        }
    }
}

/// A 21x21 maze carved from (1, 1). Every path cell is visited and can be
/// reached from the start without crossing a wall; every opening is a whole
/// passage between two path cells; and there is one passage fewer than
/// there are path cells (each counted at both ends), so the passages form a
/// spanning tree: a perfect maze. No other cell is visited: the border and
/// the pillars keep all four walls, and a cell between two path cells is
/// open only along the line joining them, and only when both are open
/// towards it.
pub fn generate_maze() -> (maze: MazeGrid)
    ensures
        sized(maze),
        passages_ok(maze),
        forall|x: int, y: int| is_path(x, y) ==> #[trigger] maze.at(x, y).visited,
        visits_paths_only(maze),
        forall|x: int, y: int| is_path(x, y) ==> #[trigger] joined(maze, (1, 1), (x, y)),
        full_passages(maze),
        frame_ok(maze),
        path_upto(441) == 100,
        open_ends(maze, 441) == 2 * (path_upto(441) - 1),
{
    let mut maze = MazeGrid::new(MAZE_WIDTH, MAZE_HEIGHT);
    let ghost g0 = maze;
    proof {
        assert forall|a: int, b: int, e: Direction| maze.inside(a, b) implies #[trigger] maze.at(a, b).walled(e) by {
            let w = maze.at(a, b).walls;
            assert(w == 15);
            crate::maze::lemma_remove_bit(15, e, e);
            assert(15u8 & e.bit_of() != 0) by {
                let bb = e.bit_of();
                assert(bb == 1 || bb == 2 || bb == 4 || bb == 8);
                assert(15u8 & bb != 0) by (bit_vector)
                    requires
                        bb == 1 || bb == 2 || bb == 4 || bb == 8,
                ;
            }
        }
    }
    proof {
        assert forall|a: int, b: int| maze.inside(a, b) && !is_path(a, b) implies #[trigger] framed(maze, a, b) by {
            assert(maze.at(a, b).walled(Direction::Up) && maze.at(a, b).walled(Direction::Down) && maze.at(
                a,
                b,
            ).walled(Direction::Left) && maze.at(a, b).walled(Direction::Right));
        }
    }
    let ghost budget = unvisited_upto(maze, 441);
    carve(&mut maze, 1, 1, Ghost(budget));
    proof {
        lemma_all_visited(g0, maze);
        lemma_closed_ends(g0, 441);
        lemma_none_visited(g0, 441);
        lemma_visited_are_paths(maze, 441);
        lemma_hundred_paths();
        assert forall|x: int, y: int| is_path(x, y) implies #[trigger] joined(maze, (1, 1), (x, y)) by {
            assert(maze.at(x, y).visited);
            assert(!g0.at(x, y).visited);
        }
    }
    maze
}

proof fn lemma_tree_step(g0: MazeGrid, before: MazeGrid, mid: MazeGrid, fin: MazeGrid)
    requires
        tree_progress(g0, before),
        tree_progress(mid, fin),
        open_ends(mid, 441) == open_ends(before, 441) + 2,
        unvisited_upto(mid, 441) == unvisited_upto(before, 441),
    ensures
        tree_progress(g0, fin),
{
}

/// One direction tried by `carve` at `(x, y)`: after knocking through to
/// the next path cell and carving on from there, every cell newly visited
/// since `g0` is still joined to `(x, y)`, and walls only came down.
proof fn lemma_step_joins(g0: MazeGrid, before: MazeGrid, mid: MazeGrid, fin: MazeGrid, x: int, y: int, d: Direction)
    requires
        sized(g0),
        sized(before),
        sized(mid),
        sized(fin),
        is_path(x, y),
        is_path(leap(x, y, d).0, leap(x, y, d).1),
        opens_more(g0, before),
        forall|a: int, b: int|
            g0.inside(a, b) && (#[trigger] before.at(a, b)).visited && !g0.at(a, b).visited ==> joined(before, (x, y), (a, b)),
        forall|a: int, b: int| before.inside(a, b) ==> (#[trigger] mid.at(a, b)).visited == before.at(a, b).visited,
        forall|a: int, b: int, e: Direction|
            before.inside(a, b) ==> #[trigger] mid.at(a, b).walled(e) == (before.at(a, b).walled(e) && !(((a, b) == (x, y)
                && e == d) || ((a, b) == step(x, y, d) && (e == d || e == d.opp())) || ((a, b) == leap(x, y, d)
                && e == d.opp()))),
        opens_more(mid, fin),
        keeps_visits(mid, fin),
        forall|a: int, b: int|
            mid.inside(a, b) && (#[trigger] fin.at(a, b)).visited && !mid.at(a, b).visited ==> joined(fin, leap(x, y, d), (a, b)),
    ensures
        opens_more(g0, fin),
        forall|a: int, b: int|
            g0.inside(a, b) && (#[trigger] fin.at(a, b)).visited && !g0.at(a, b).visited ==> joined(fin, (x, y), (a, b)),
{
    lemma_knock_joins(before, mid, x, y, d);
    lemma_opens_more_trans(g0, before, mid);
    lemma_opens_more_trans(g0, mid, fin);
    lemma_opens_more_trans(before, mid, fin);
    lemma_joined_mono(mid, fin, (x, y), leap(x, y, d));
    assert forall|a: int, b: int| g0.inside(a, b) && (#[trigger] fin.at(a, b)).visited && !g0.at(a, b).visited implies joined(
        fin,
        (x, y),
        (a, b),
    ) by {
        if before.at(a, b).visited {
            assert(joined(before, (x, y), (a, b)));
            lemma_joined_mono(before, fin, (x, y), (a, b));
        } else {
            assert(!mid.at(a, b).visited);
            assert(joined(fin, leap(x, y, d), (a, b)));
            lemma_joined_trans(fin, (x, y), leap(x, y, d), (a, b));
        }
    }
}

proof fn lemma_opens_more_trans(a: MazeGrid, b: MazeGrid, c: MazeGrid)
    requires
        sized(a),
        sized(b),
        opens_more(a, b),
        opens_more(b, c),
    ensures
        opens_more(a, c),
{
    assert forall|x: int, y: int, d: Direction| a.inside(x, y) && !(#[trigger] a.at(x, y).walled(d)) implies !c.at(
        x,
        y,
    ).walled(d) by {
        assert(!b.at(x, y).walled(d));
    }
}

/// Knocking through from `(x, y)` towards `d` joins it to the path cell two
/// steps away, and only takes walls down.
proof fn lemma_knock_joins(g0: MazeGrid, g1: MazeGrid, x: int, y: int, d: Direction)
    requires
        sized(g0),
        sized(g1),
        is_path(x, y),
        is_path(leap(x, y, d).0, leap(x, y, d).1),
        forall|a: int, b: int, e: Direction|
            g0.inside(a, b) ==> #[trigger] g1.at(a, b).walled(e) == (g0.at(a, b).walled(e) && !(((a, b) == (x, y)
                && e == d) || ((a, b) == step(x, y, d) && (e == d || e == d.opp())) || ((a, b) == leap(x, y, d)
                && e == d.opp()))),
    ensures
        opens_more(g0, g1),
        joined(g1, (x, y), leap(x, y, d)),
{
    let m = step(x, y, d);
    let p = seq![(x, y), m, leap(x, y, d)];
    let ds = seq![d, d];
    assert(g0.inside(m.0, m.1));
    assert(!g1.at(x, y).walled(d));
    assert(!g1.at(m.0, m.1).walled(d));
    assert(step(m.0, m.1, d) == leap(x, y, d));
    assert(walk(g1, p, ds));
    assert(p[0] == (x, y) && p.last() == leap(x, y, d));
}

/// With nothing visited before, carving from (1, 1) reaches every path cell.
proof fn lemma_all_visited(g0: MazeGrid, g: MazeGrid)
    requires
        sized(g0),
        sized(g),
        forall|x: int, y: int| g0.inside(x, y) ==> !(#[trigger] g0.at(x, y)).visited,
        g.at(1, 1).visited,
        closed_since(g0, g, (-1, -1)),
    ensures
        forall|x: int, y: int| is_path(x, y) ==> #[trigger] g.at(x, y).visited,
{
    assert forall|x: int, y: int| is_path(x, y) implies #[trigger] g.at(x, y).visited by {
        lemma_column_visited(g0, g, y);
        lemma_row_visited(g0, g, x, y);
    }
}

proof fn lemma_column_visited(g0: MazeGrid, g: MazeGrid, y: int)
    requires
        sized(g0),
        sized(g),
        forall|x: int, y: int| g0.inside(x, y) ==> !(#[trigger] g0.at(x, y)).visited,
        g.at(1, 1).visited,
        closed_since(g0, g, (-1, -1)),
        1 <= y < 21,
        y % 2 == 1,
    ensures
        g.at(1, y).visited,
    decreases y,
{
    if y > 1 {
        lemma_column_visited(g0, g, y - 2);
        assert(g0.inside(1, y - 2));
        assert(leap(1, y - 2, Direction::Down) == (1int, y));
        assert(g.at(leap(1, y - 2, Direction::Down).0, leap(1, y - 2, Direction::Down).1).visited);
    }
}

proof fn lemma_row_visited(g0: MazeGrid, g: MazeGrid, x: int, y: int)
    requires
        sized(g0),
        sized(g),
        forall|x: int, y: int| g0.inside(x, y) ==> !(#[trigger] g0.at(x, y)).visited,
        g.at(1, y).visited,
        closed_since(g0, g, (-1, -1)),
        1 <= x < 21,
        x % 2 == 1,
        1 <= y < 21,
        y % 2 == 1,
    ensures
        g.at(x, y).visited,
    decreases x,
{
    if x > 1 {
        lemma_row_visited(g0, g, x - 2, y);
        assert(g0.inside(x - 2, y));
        assert(leap(x - 2, y, Direction::Right) == (x, y));
        assert(g.at(leap(x - 2, y, Direction::Right).0, leap(x - 2, y, Direction::Right).1).visited);
    }
}

} // verus!
