use twin_maze::maze::{Maze, MazeState};
use twin_maze::singlemaze::SingleMaze;

/// A walled corridor of the given width: the robot starts at the left
/// end and the only exit bond lies past the right end, so escaping takes
/// exactly `columns - 1` moves East.
fn corridor(columns: usize) -> (SingleMaze, twin_maze::singlemaze::SingleMazeState) {
    let mut cells: Vec<char> = Vec::new();
    for _ in 0..columns {
        cells.push('#');
    }
    cells.push('#');
    cells.push('X');
    for _ in 2..columns {
        cells.push('.');
    }
    for _ in 0..columns {
        cells.push('#');
    }
    SingleMaze::from_grid(3, columns, &cells, &Vec::new()).expect("well-formed grid")
}

/// A pocket that escapes East in one move and then stays frozen.
fn pocket() -> (SingleMaze, twin_maze::singlemaze::SingleMazeState) {
    let cells: Vec<char> = "###X##".chars().collect();
    SingleMaze::from_grid(3, 2, &cells, &Vec::new()).expect("well-formed grid")
}

#[test]
fn horizon_reached_exactly_succeeds() {
    // The corridor needs exactly 1000 ticks; the pocket exits on the
    // first shared move and is frozen afterwards.
    let a = corridor(1001);
    let b = pocket();
    let maze = Maze::new(a.0, b.0);
    let state = MazeState {
        maze_one_state: a.1,
        maze_two_state: b.1,
        solution: Vec::new(),
    };
    let solution = maze.solve(&state).expect("solvable within the horizon");
    assert_eq!(solution.len(), 1000);
}

#[test]
fn horizon_exceeded_by_one_fails() {
    let a = corridor(1002);
    let b = pocket();
    let maze = Maze::new(a.0, b.0);
    let state = MazeState {
        maze_one_state: a.1,
        maze_two_state: b.1,
        solution: Vec::new(),
    };
    assert!(maze.solve(&state).is_none());
}
