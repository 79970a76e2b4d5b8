//! Maze grid: cells with four walls kept as bit flags. Path cells sit at odd
//! coordinates; the cells between them are the walls that carving opens.

pub mod generator;
pub mod player;

use vstd::prelude::*;

verus! {

/// A direction of movement, and the wall on that side of a cell.
#[derive(Clone, Copy, PartialEq, Eq, Structural, Debug)]
pub enum Direction {
    Up,
    Down,
    Left,
    Right,
}

pub const DIRECTIONS: [Direction; 4] = [Direction::Up, Direction::Down, Direction::Left, Direction::Right];

impl Direction {
    /// The wall flag of this direction: 1 up, 2 down, 4 left, 8 right.
    pub open spec fn bit_of(self) -> u8 {
        match self {
            Direction::Up => 1,
            Direction::Down => 2,
            Direction::Left => 4,
            Direction::Right => 8,
        }
    }

    pub fn bit(self) -> (b: u8)
        ensures
            b == self.bit_of(),
    {
        match self {
            Direction::Up => 1,
            Direction::Down => 2,
            Direction::Left => 4,
            Direction::Right => 8,
        }
    }

    pub open spec fn opp(self) -> Direction {
        match self {
            Direction::Up => Direction::Down,
            Direction::Down => Direction::Up,
            Direction::Left => Direction::Right,
            Direction::Right => Direction::Left,
        }
    }

    pub fn opposite(&self) -> (r: Direction)
        ensures
            r == self.opp(),
    {
        match self {
            Direction::Up => Direction::Down,
            Direction::Down => Direction::Up,
            Direction::Left => Direction::Right,
            Direction::Right => Direction::Left,
        }
    }

    /// Column step.
    pub open spec fn dx(self) -> int {
        match self {
            Direction::Left => -1,
            Direction::Right => 1,
            _ => 0,
        }
    }

    /// Row step; up is towards row 0.
    pub open spec fn dy(self) -> int {
        match self {
            Direction::Up => -1,
            Direction::Down => 1,
            _ => 0,
        }
    }

    pub fn delta(&self) -> (r: (isize, isize))
        ensures
            r.0 == self.dx(),
            r.1 == self.dy(),
    {
        match self {
            Direction::Up => (0, -1),
            Direction::Down => (0, 1),
            Direction::Left => (-1, 0),
            Direction::Right => (1, 0),
        }
    }
}

/// One cell of the grid; `walls` holds one flag per direction.
#[derive(Clone, Copy, PartialEq, Eq, Structural, Debug)]
pub struct MazeCell {
    pub walls: u8,
    pub visited: bool,
}

/// Removing one wall flag leaves the others as they were.
pub proof fn lemma_remove_bit(w: u8, d: Direction, e: Direction)
    ensures
        ((w & !d.bit_of()) & e.bit_of() != 0) == (d != e && w & e.bit_of() != 0),
{
    let b1 = d.bit_of();
    let b2 = e.bit_of();
    assert(b1 == 1 || b1 == 2 || b1 == 4 || b1 == 8);
    assert(b2 == 1 || b2 == 2 || b2 == 4 || b2 == 8);
    assert((d == e) == (b1 == b2));
    assert(((w & !b1) & b2 != 0) == (b1 != b2 && w & b2 != 0)) by (bit_vector)
        requires
            b1 == 1 || b1 == 2 || b1 == 4 || b1 == 8,
            b2 == 1 || b2 == 2 || b2 == 4 || b2 == 8,
    ;
}

impl MazeCell {
    /// Whether the wall towards `d` stands.
    pub open spec fn walled(self, d: Direction) -> bool {
        self.walls & d.bit_of() != 0
    }

    /// All four walls, not visited.
    pub fn new() -> (c: MazeCell)
        ensures
            c.walls == 15,
            !c.visited,
            forall|d: Direction| #[trigger] c.walled(d),
    {
        let c = MazeCell { walls: 0b1111, visited: false };
        assert forall|d: Direction| #[trigger] c.walled(d) by {
            let b = d.bit_of();
            assert(b == 1 || b == 2 || b == 4 || b == 8);
            assert(15u8 & b != 0) by (bit_vector)
                requires
                    b == 1 || b == 2 || b == 4 || b == 8,
            ;
        }
        c
    }

    /// Knocks down the wall towards `direction`.
    pub fn remove_wall(&mut self, direction: Direction)
        ensures
            final(self).walls == old(self).walls & !direction.bit_of(),
            final(self).visited == old(self).visited,
            !final(self).walled(direction),
            forall|e: Direction| e != direction ==> #[trigger] final(self).walled(e) == old(self).walled(e),
    {
        let ghost w = self.walls;
        self.walls &= !direction.bit();
        proof {
            lemma_remove_bit(w, direction, direction);
            assert forall|e: Direction| e != direction implies #[trigger] self.walled(e) == old(self).walled(e) by {
                lemma_remove_bit(w, direction, e);
            }
        }
    }

    pub fn has_wall(&self, direction: Direction) -> (r: bool)
        ensures
            r == self.walled(direction),
    {
        self.walls & direction.bit() != 0
    }
}

/// The grid, indexed `cells[x][y]` with `x` the column and `y` the row.
pub struct MazeGrid {
    pub cells: Vec<Vec<MazeCell>>,
    pub width: usize,
    pub height: usize,
}

impl MazeGrid {
    /// `width` columns of `height` cells each.
    pub open spec fn wf(&self) -> bool {
        &&& self.cells@.len() == self.width
        &&& forall|x: int| 0 <= x < self.width ==> (#[trigger] self.cells@[x])@.len() == self.height
    }

    pub open spec fn at(&self, x: int, y: int) -> MazeCell {
        self.cells@[x]@[y]
    }

    pub open spec fn inside(&self, x: int, y: int) -> bool {
        0 <= x < self.width && 0 <= y < self.height
    }

    /// A grid of `width` by `height` cells, every wall standing.
    pub fn new(width: usize, height: usize) -> (g: MazeGrid)
        ensures
            g.wf(),
            g.width == width,
            g.height == height,
            forall|x: int, y: int| g.inside(x, y) ==> #[trigger] g.at(x, y) == (MazeCell { walls: 15, visited: false }),
    {
        let mut cells: Vec<Vec<MazeCell>> = Vec::new();
        let mut i: usize = 0;
        while i < width
            invariant
                i <= width,
                cells@.len() == i,
                forall|x: int| 0 <= x < i ==> (#[trigger] cells@[x])@.len() == height,
                forall|x: int, y: int|
                    0 <= x < i && 0 <= y < height ==> #[trigger] cells@[x]@[y] == (MazeCell { walls: 15, visited: false }),
            decreases width - i,
        {
            let mut column: Vec<MazeCell> = Vec::new();
            let mut j: usize = 0;
            while j < height
                invariant
                    j <= height,
                    column@.len() == j,
                    forall|y: int| 0 <= y < j ==> #[trigger] column@[y] == (MazeCell { walls: 15, visited: false }),
                decreases height - j,
            {
                column.push(MazeCell::new());
                j += 1;
            }
            cells.push(column);
            i += 1;
        }
        MazeGrid { cells, width, height }
    }

    /// The cell at `(x, y)`, `None` outside the grid.
    pub fn get_cell(&self, x: usize, y: usize) -> (r: Option<&MazeCell>)
        requires
            self.wf(),
        ensures
            r is Some <==> self.inside(x as int, y as int),
            r matches Some(c) ==> *c == self.at(x as int, y as int),
    {
        if x < self.cells.len() && y < self.cells[x].len() {
            Some(&self.cells[x][y])
        } else {
            None
        }
    }

    /// Mutable access to the cell at `(x, y)`, `None` outside the grid.
    pub fn get_cell_mut(&mut self, x: usize, y: usize) -> (r: Option<&mut MazeCell>)
        requires
            old(self).wf(),
        ensures
            r is Some <==> old(self).inside(x as int, y as int),
            r is None ==> *final(self) == *old(self),
            r matches Some(c) ==> *c == old(self).at(x as int, y as int),
            r matches Some(c) ==> final(self).wf() && final(self).width == old(self).width && final(self).height == old(self).height,
            r matches Some(c) ==> forall|a: int, b: int| final(self).inside(a, b) ==> #[trigger] final(self).at(a, b) == if a == x && b == y {
                *final(c)
            } else {
                old(self).at(a, b)
            },
    {
        if x < self.cells.len() && y < self.cells[x].len() {
            Some(&mut self.cells[x][y])
        } else {
            None
        }
    }

    /// Replaces the cell at `(x, y)`, which lies in the grid.
    pub fn set_cell(&mut self, x: usize, y: usize, cell: MazeCell)
        requires
            old(self).wf(),
            old(self).inside(x as int, y as int),
        ensures
            final(self).wf(),
            final(self).width == old(self).width,
            final(self).height == old(self).height,
            forall|a: int, b: int|
                final(self).inside(a, b) ==> #[trigger] final(self).at(a, b) == if a == x && b == y {
                    cell
                } else {
                    old(self).at(a, b)
                },
    {
        let ghost before = self.cells@;
        self.cells[x].set(y, cell);
        assert forall|a: int| 0 <= a < self.width implies (#[trigger] self.cells@[a])@.len() == self.height by {
            if a != x {
                assert(self.cells@[a] == before[a]);
            }
        }
        assert forall|a: int, b: int| self.inside(a, b) implies #[trigger] self.at(a, b) == if a == x && b == y {
            cell
        } else {
            old(self).at(a, b)
        } by {
            if a != x {
                assert(self.cells@[a] == before[a]);
            }
        }
    }

    /// Whether `(x, y)` lies in the grid.
    pub fn is_valid_cell(&self, x: isize, y: isize) -> (r: bool)
        requires
            self.width <= isize::MAX,
            self.height <= isize::MAX,
        ensures
            r == self.inside(x as int, y as int),
    {
        x >= 0 && x < self.width as isize && y >= 0 && y < self.height as isize
    }

    /// Path cells are the cells at odd coordinates.
    pub fn is_path_cell(&self, x: usize, y: usize) -> (r: bool)
        ensures
            r == (x % 2 == 1 && y % 2 == 1 && x < self.width && y < self.height),
    {
        x % 2 == 1 && y % 2 == 1 && x < self.width && y < self.height
    }
}

/// Law: a path cell is a valid cell of the grid.
pub proof fn path_cells_are_valid(g: MazeGrid, x: usize, y: usize)
    requires
        x % 2 == 1 && y % 2 == 1 && x < g.width && y < g.height,
    ensures
        g.inside(x as int, y as int),
{
}

} // verus!
