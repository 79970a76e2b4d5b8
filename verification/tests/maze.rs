use boardgames::maze::generator::{generate_maze, MAZE_HEIGHT, MAZE_WIDTH};
use boardgames::maze::player::{
    arrive, begin_step, check_exit_reached, collect_treasures, direction_to_target, handle_treasure_collected,
    reached_exit, spawn_treasures, steer, try_change_direction, Player, Treasure, EXIT_POS, START_POS,
    TREASURE_SCORE,
};
use boardgames::maze::{Direction, MazeCell, MazeGrid, DIRECTIONS};

fn step(x: usize, y: usize, d: Direction) -> (isize, isize) {
    let (dx, dy) = d.delta();
    (x as isize + dx, y as isize + dy)
}

/// A 5x5 grid with a passage from (1, 1) to (3, 1).
fn small_maze() -> MazeGrid {
    let mut g = MazeGrid::new(5, 5);
    g.get_cell_mut(1, 1).unwrap().remove_wall(Direction::Right);
    let wall = g.get_cell_mut(2, 1).unwrap();
    wall.remove_wall(Direction::Right);
    wall.remove_wall(Direction::Left);
    g.get_cell_mut(3, 1).unwrap().remove_wall(Direction::Left);
    g
}

#[test]
fn cell_walls_are_bit_flags() {
    let mut c = MazeCell::new();
    assert_eq!(c.walls, 0b1111);
    assert!(!c.visited);
    for d in DIRECTIONS {
        assert!(c.has_wall(d));
    }
    c.remove_wall(Direction::Left);
    assert_eq!(c.walls, 0b1011);
    assert!(!c.has_wall(Direction::Left));
    assert!(c.has_wall(Direction::Up) && c.has_wall(Direction::Down) && c.has_wall(Direction::Right));
    c.remove_wall(Direction::Left);
    assert_eq!(c.walls, 0b1011);
}

#[test]
fn directions() {
    assert_eq!(Direction::Up.opposite(), Direction::Down);
    assert_eq!(Direction::Left.opposite(), Direction::Right);
    assert_eq!(Direction::Up.delta(), (0, -1));
    assert_eq!(Direction::Right.delta(), (1, 0));
    assert_eq!(Direction::Down.bit(), 2);
}

#[test]
fn grid_access() {
    let mut g = MazeGrid::new(3, 4);
    assert_eq!(g.cells.len(), 3);
    assert_eq!(g.cells[0].len(), 4);
    assert!(g.get_cell(2, 3).is_some());
    assert!(g.get_cell(3, 0).is_none());
    assert!(g.get_cell(0, 4).is_none());
    g.get_cell_mut(1, 2).unwrap().visited = true;
    assert!(g.get_cell(1, 2).unwrap().visited);
    assert!(g.get_cell_mut(5, 5).is_none());
    assert!(g.is_valid_cell(0, 0));
    assert!(!g.is_valid_cell(-1, 0));
    assert!(!g.is_valid_cell(3, 0));
    assert!(g.is_path_cell(1, 1));
    assert!(!g.is_path_cell(2, 1));
    assert!(!g.is_path_cell(1, 5));
}

#[test]
fn generated_maze_is_a_consistent_spanning_maze() {
    let maze = generate_maze();
    assert_eq!((maze.width, maze.height), (MAZE_WIDTH, MAZE_HEIGHT));
    let mut openings = 0;
    for x in 0..maze.width {
        for y in 0..maze.height {
            let cell = maze.get_cell(x, y).unwrap();
            assert_eq!(cell.visited, maze.is_path_cell(x, y));
            for d in DIRECTIONS {
                if !cell.has_wall(d) {
                    openings += 1;
                    let (nx, ny) = step(x, y, d);
                    assert!(maze.is_valid_cell(nx, ny));
                    let next = maze.get_cell(nx as usize, ny as usize).unwrap();
                    assert!(!next.has_wall(d.opposite()));
                }
            }
        }
    }
    // a spanning tree over the 100 path cells has 99 passages of 4 openings
    assert_eq!(openings, 99 * 4);
    // every path cell can be reached from the start
    let mut seen = vec![vec![false; maze.height]; maze.width];
    let mut stack = vec![START_POS];
    seen[1][1] = true;
    while let Some((x, y)) = stack.pop() {
        for d in DIRECTIONS {
            if !maze.get_cell(x, y).unwrap().has_wall(d) {
                let (nx, ny) = step(x, y, d);
                let (nx, ny) = (nx as usize, ny as usize);
                if !seen[nx][ny] {
                    seen[nx][ny] = true;
                    stack.push((nx, ny));
                }
            }
        }
    }
    assert!(seen[EXIT_POS.0][EXIT_POS.1]);
}

#[test]
fn stepping_through_openings_only() {
    let maze = small_maze();
    let mut p = Player::new();
    assert_eq!((p.grid_x, p.grid_y, p.target_x, p.target_y), (1, 1, 1, 1));
    begin_step(&maze, &mut p, Direction::Up);
    assert!(!p.is_moving);
    begin_step(&maze, &mut p, Direction::Right);
    assert!(p.is_moving);
    assert_eq!((p.target_x, p.target_y), (2, 1));
    arrive(&mut p);
    assert_eq!((p.grid_x, p.grid_y), (2, 1));
    assert!(!p.is_moving);
}

#[test]
fn turning_mid_tile() {
    let maze = small_maze();
    let mut p = Player::new();
    begin_step(&maze, &mut p, Direction::Right);
    // turning back returns to the tile left behind
    steer(&maze, &mut p, Direction::Left);
    assert_eq!((p.target_x, p.target_y), (1, 1));
    // holding the current heading changes nothing
    let mut q = Player::new();
    begin_step(&maze, &mut q, Direction::Right);
    let before = q;
    steer(&maze, &mut q, Direction::Right);
    assert_eq!(q, before);
    // turning sideways into a wall changes nothing
    try_change_direction(&maze, &mut q, Direction::Down, Direction::Right);
    assert_eq!(q, before);
}

#[test]
fn direction_between_tiles() {
    assert_eq!(direction_to_target(3, 3, 3, 2), Some(Direction::Up));
    assert_eq!(direction_to_target(3, 3, 3, 4), Some(Direction::Down));
    assert_eq!(direction_to_target(3, 3, 2, 3), Some(Direction::Left));
    assert_eq!(direction_to_target(3, 3, 4, 3), Some(Direction::Right));
    assert_eq!(direction_to_target(3, 3, 3, 3), None);
    assert_eq!(direction_to_target(3, 3, 5, 3), None);
}

#[test]
fn treasures_and_exit() {
    let mut p = Player::new();
    let treasures = vec![
        Treasure { grid_x: 1, grid_y: 1, collected: false },
        Treasure { grid_x: 3, grid_y: 1, collected: false },
        Treasure { grid_x: 1, grid_y: 1, collected: true },
    ];
    assert_eq!(collect_treasures(&p, &treasures), vec![0]);
    handle_treasure_collected(&mut p);
    assert_eq!(p.score, TREASURE_SCORE);
    assert_eq!(p.treasures_collected, 1);
    assert!(!reached_exit(&p));
    assert!(check_exit_reached(&p).is_none());
    p.grid_x = EXIT_POS.0;
    p.grid_y = EXIT_POS.1;
    let summary = check_exit_reached(&p).unwrap();
    assert_eq!(summary.final_score, 100);
    assert_eq!(summary.treasures_collected, 1);
}

#[test]
fn treasure_spots_are_distinct_path_cells() {
    let maze = generate_maze();
    let spots = spawn_treasures(&maze, 9);
    assert_eq!(spots.len(), 9);
    for (i, &(x, y)) in spots.iter().enumerate() {
        assert!(maze.is_path_cell(x, y));
        assert!((x, y) != START_POS && (x, y) != EXIT_POS);
        assert!(!spots[..i].contains(&(x, y)));
    }
    assert_eq!(spawn_treasures(&maze, 1000).len(), 98);
}

#[test]
fn set_cell_replaces_one_cell() {
    let mut g = MazeGrid::new(3, 2);
    let mut c = MazeCell::new();
    c.remove_wall(Direction::Left);
    c.visited = true;
    g.set_cell(2, 1, c);
    let got = g.get_cell(2, 1).unwrap();
    assert!(got.visited && !got.has_wall(Direction::Left) && got.has_wall(Direction::Up));
    assert!(!g.get_cell(1, 1).unwrap().visited);
}

#[test]
fn border_and_pillars_keep_their_walls() {
    let maze = generate_maze();
    let mut open_passage_cells = 0;
    for x in 0..MAZE_WIDTH {
        for y in 0..MAZE_HEIGHT {
            if maze.is_path_cell(x, y) {
                continue;
            }
            let cell = maze.get_cell(x, y).unwrap();
            assert!(!cell.visited);
            let across = x % 2 == 0 && y % 2 == 1 && x > 0 && x < MAZE_WIDTH - 1;
            let along = x % 2 == 1 && y % 2 == 0 && y > 0 && y < MAZE_HEIGHT - 1;
            if across {
                assert!(cell.has_wall(Direction::Up) && cell.has_wall(Direction::Down));
                assert_eq!(cell.has_wall(Direction::Left), cell.has_wall(Direction::Right));
            } else if along {
                assert!(cell.has_wall(Direction::Left) && cell.has_wall(Direction::Right));
                assert_eq!(cell.has_wall(Direction::Up), cell.has_wall(Direction::Down));
            } else {
                assert_eq!(cell.walls, 0b1111);
            }
            if cell.walls != 0b1111 {
                open_passage_cells += 1;
            }
        }
    }
    assert_eq!(open_passage_cells, 99);
}
