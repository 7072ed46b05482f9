use twin_maze::maze::{Maze, MazeState};
use twin_maze::memo::StateMemo;
use twin_maze::output::solution_text;
use twin_maze::pyramid::max_path_pyramid;
use twin_maze::singlemaze::{Direction, Guard, GuardSetup, GuardState, SingleMaze, SingleMazeState};

fn cells_of(text: &str) -> Vec<char> {
    text.chars().filter(|c| !c.is_whitespace()).collect()
}

fn grid(rows: usize, columns: usize, text: &str, guards: Vec<GuardSetup>) -> (SingleMaze, SingleMazeState) {
    SingleMaze::from_grid(rows, columns, &cells_of(text), &guards).expect("well-formed grid")
}

fn pair(a: (SingleMaze, SingleMazeState), b: (SingleMaze, SingleMazeState)) -> (Maze, MazeState) {
    let maze = Maze::new(a.0, b.0);
    let state = MazeState {
        maze_one_state: a.1,
        maze_two_state: b.1,
        solution: Vec::new(),
    };
    (maze, state)
}

fn phase(position: usize, reversed: bool, steps: usize) -> GuardState {
    GuardState {
        position,
        reversed_direction: reversed,
        steps_to_starting_position: steps,
    }
}

#[test]
fn direction_characters_round_trip() {
    for (c, d) in [
        ('N', Direction::North),
        ('E', Direction::East),
        ('S', Direction::South),
        ('W', Direction::West),
    ] {
        assert_eq!(Direction::from_char(c), Some(d));
        assert_eq!(d.to_char(), c);
    }
    assert_eq!(Direction::from_char('Q'), None);
    assert_eq!(Direction::from_char('n'), None);
}

#[test]
fn direction_position_change() {
    assert_eq!(Direction::North.to_position_change(7), -7);
    assert_eq!(Direction::East.to_position_change(7), 1);
    assert_eq!(Direction::South.to_position_change(7), 7);
    assert_eq!(Direction::West.to_position_change(7), -1);
}

#[test]
fn patrol_triangle_wave_positions() {
    // Patrol of length 3 starting at cell 10, moving by +1.
    let g = Guard::new(3, 1);
    let mut s = phase(10, false, 0);
    let mut positions = Vec::new();
    for _ in 0..8 {
        s = g.step(&s);
        positions.push(s.position);
    }
    assert_eq!(positions, vec![11, 12, 11, 10, 11, 12, 11, 10]);
}

#[test]
fn patrol_periodicity_returns_to_start() {
    // Stepping 2 * (L - 1) times returns the starting phase exactly.
    let g = Guard::new(4, 5);
    let start = phase(100, false, 0);
    let mut s = start;
    for _ in 0..(2 * (4 - 1)) {
        s = g.step(&s);
    }
    assert_eq!(s, start);
    // Also from a mid-patrol phase.
    let mid = phase(105, false, 1);
    let mut s = mid;
    for _ in 0..6 {
        s = g.step(&s);
    }
    assert_eq!(s, mid);
}

#[test]
fn short_patrols_never_move() {
    for l in [0, 1] {
        let g = Guard::new(l, 3);
        let start = phase(42, false, 0);
        let mut s = start;
        for _ in 0..5 {
            s = g.step(&s);
            assert_eq!(s, start);
        }
    }
}

#[test]
fn catch_direct_is_illegal() {
    // Robot at cell 1 of a 1x5 corridor moves East towards cell 2; the
    // guard patrolling westwards from cell 3 steps onto cell 2.
    let guard = GuardSetup { row: 0, col: 3, patrol_path_size: 3, direction: Direction::West };
    let (m, s) = grid(1, 5, ". X . . .", vec![guard]);
    let (legal, next) = m.step(&s, Direction::East);
    assert!(!legal);
    // The veto leaves the state untouched.
    assert!(next.identity_eq(&s));
}

#[test]
fn catch_swap_is_illegal() {
    // The guard starts on the robot's destination cell 2 and steps onto
    // the robot's current cell 1: a pass-through catch.
    let guard = GuardSetup { row: 0, col: 2, patrol_path_size: 3, direction: Direction::West };
    let (m, s) = grid(1, 5, ". X . . .", vec![guard]);
    let (legal, _) = m.step(&s, Direction::East);
    assert!(!legal);
}

#[test]
fn guard_moving_away_is_legal() {
    // The same layout, but the guard walks East, away from the robot.
    let guard = GuardSetup { row: 0, col: 3, patrol_path_size: 2, direction: Direction::East };
    let (m, s) = grid(1, 5, ". X . . .", vec![guard]);
    let (legal, next) = m.step(&s, Direction::East);
    assert!(legal);
    assert_eq!(next.robot_position, 2);
    assert_eq!(next.guards_states[0].position, 4);
}

#[test]
fn wall_bump_consumes_a_tick() {
    // The robot is walled in; moving North is legal, the robot stays,
    // and the guard still advances one patrol step.
    let guard = GuardSetup { row: 2, col: 0, patrol_path_size: 2, direction: Direction::East };
    let (m, s) = grid(3, 3, "### #X# ###", vec![guard]);
    assert_eq!(s.robot_position, 4);
    let (legal, next) = m.step(&s, Direction::North);
    assert!(legal);
    assert_eq!(next.robot_position, 4);
    assert!(!next.robot_outside);
    assert_eq!(next.guards_states[0].position, 7);
    assert_eq!(next.guards_states[0].steps_to_starting_position, 1);
    // Another tick: the guard turns back at the end of its path.
    let (legal2, after) = m.step(&next, Direction::North);
    assert!(legal2);
    assert_eq!(after.robot_position, 4);
    assert_eq!(after.guards_states[0].position, 6);
    assert_eq!(after.guards_states[0].steps_to_starting_position, 0);
}

#[test]
fn no_exit_grid_is_unsolvable() {
    // A wall ring encloses the only open cell: no exit bonds exist, so
    // the twin maze is unsolvable, well before the horizon.
    let a = grid(3, 3, "### #X# ###", vec![]);
    let b = grid(3, 3, "### #X# ###", vec![]);
    let (maze, state) = pair(a, b);
    let solution = maze.solve(&state);
    assert!(solution.is_none());
    assert_eq!(solution_text(&solution), "-1");
}

#[test]
fn shortest_two_tick_solution_is_found() {
    // Each grid has a unique two-tick escape: East to the corridor end,
    // then East off the grid.  The solver must return exactly two moves.
    let a = grid(3, 4, "#### #.X. ####", vec![]);
    let b = grid(3, 4, "#### #.X. ####", vec![]);
    let (maze, state) = pair(a, b);
    let solution = maze.solve(&state).expect("solvable");
    assert_eq!(solution, vec![Direction::East, Direction::East]);
    assert_eq!(solution_text(&Some(solution)), "2\nE\nE");
}

#[test]
fn single_shared_east_move_exits_both() {
    // Both robots stand one East move from escaping, with walls all
    // around otherwise: the answer is one shared East move.
    let a = grid(3, 2, "## #X ##", vec![]);
    let b = grid(3, 2, "## #X ##", vec![]);
    let (maze, state) = pair(a, b);
    let solution = maze.solve(&state).expect("solvable");
    assert_eq!(solution, vec![Direction::East]);
    assert_eq!(solution_text(&Some(solution)), "1\nE");
}

#[test]
fn one_by_two_open_grids_escape_in_one_move() {
    // Two 1x2 grids `X .`: every boundary cell of a one-row grid bonds
    // North and South as well, so a single shared move exits both.
    let a = grid(1, 2, "X.", vec![]);
    let b = grid(1, 2, "X.", vec![]);
    let (maze, state) = pair(a, b);
    let solution = maze.solve(&state).expect("solvable");
    assert_eq!(solution.len(), 1);
}

#[test]
fn repeated_solves_agree() {
    // Determinism: the same puzzle solved twice gives the same moves.
    let mk = || {
        let guard = GuardSetup { row: 1, col: 3, patrol_path_size: 2, direction: Direction::West };
        pair(
            grid(3, 4, "#### #.X. ####", vec![guard]),
            grid(3, 4, "#### #.X. ####", vec![]),
        )
    };
    let (maze_one, state_one) = mk();
    let (maze_two, state_two) = mk();
    assert_eq!(maze_one.solve(&state_one), maze_two.solve(&state_two));
}

#[test]
fn memoized_solver_finds_the_short_escape() {
    let a = grid(3, 4, "#### #.X. ####", vec![]);
    let b = grid(3, 2, "## #X ##", vec![]);
    let (maze, state) = pair(a, b);
    let solution = maze.solve_memoized(&state).expect("solvable");
    // Grid one needs two East moves; grid two escapes on the first and
    // then stays frozen outside.
    assert_eq!(solution, vec![Direction::East, Direction::East]);
}

#[test]
fn memoized_solver_takes_a_one_tick_win() {
    // Both robots stand one East move from escaping: the heuristic
    // search never prunes a move whose both halves exit at once.
    let a = grid(3, 2, "## #X ##", vec![]);
    let b = grid(3, 2, "## #X ##", vec![]);
    let (maze, state) = pair(a, b);
    let solution = maze.solve_memoized(&state).expect("one-tick win");
    assert_eq!(solution, vec![Direction::East]);
}

#[test]
fn next_moves_always_lists_exit_bonds() {
    // The queried state's own exit bond is always among the answers,
    // marked with no remaining depth.
    let (m, s) = grid(3, 2, "## #X ##", vec![]);
    let mut memo = StateMemo::new();
    let moves = m.next_moves(&mut memo, &s);
    assert!(moves.iter().any(|(d, _, remaining, next)| *d == Direction::East && *remaining == 0
        && next.robot_outside));
}

#[test]
fn memoized_solver_reports_unsolvable() {
    let a = grid(3, 3, "### #X# ###", vec![]);
    let b = grid(3, 2, "## #X ##", vec![]);
    let (maze, state) = pair(a, b);
    assert!(maze.solve_memoized(&state).is_none());
}

#[test]
fn next_moves_transitions_match_step() {
    let (m, s) = grid(3, 4, "#### #.X. ####", vec![]);
    let mut memo = StateMemo::new();
    let moves = m.next_moves(&mut memo, &s);
    // All four moves are legal here (two walks, two wall bumps), and
    // every recorded one is returned.
    assert_eq!(moves.len(), 4);
    for (d, _is_best, _remaining, next_state) in &moves {
        let (legal, stepped) = m.step(&s, *d);
        assert!(legal);
        assert!(stepped.identity_eq(next_state));
    }
    // The direction towards the exit is annotated as lying on a
    // shortest escape path.
    assert!(moves.iter().any(|(d, best, _, _)| *d == Direction::East && *best));
}

#[test]
fn next_moves_of_outside_state_is_frozen() {
    let (m, _) = grid(3, 2, "## #X ##", vec![]);
    let outside = SingleMazeState::new(Vec::new(), 3, true);
    let mut memo = StateMemo::new();
    let moves = m.next_moves(&mut memo, &outside);
    assert_eq!(moves.len(), 4);
    for (_, is_best, remaining, next_state) in &moves {
        assert!(*is_best);
        assert_eq!(*remaining, 0);
        assert!(next_state.identity_eq(&outside));
    }
}

#[test]
fn solved_sequence_replays_to_a_win() {
    // A corridor with a patrolling guard in each grid: whatever sequence
    // the solver returns, replaying it move by move is legal throughout
    // and leaves both robots outside.
    let ga = GuardSetup { row: 1, col: 4, patrol_path_size: 3, direction: Direction::West };
    let gb = GuardSetup { row: 1, col: 1, patrol_path_size: 2, direction: Direction::East };
    let a = grid(3, 6, "###### #X.... ######", vec![ga]);
    let b = grid(3, 6, "###### #..X.. ######", vec![gb]);
    let (maze, state) = pair(a, b);
    let solution = maze.solve(&state).expect("solvable");
    let mut one = state.maze_one_state;
    let mut two = state.maze_two_state;
    for d in &solution {
        let (ok1, next1) = maze.maze_one.step(&one, *d);
        let (ok2, next2) = maze.maze_two.step(&two, *d);
        assert!(ok1 && ok2);
        one = next1;
        two = next2;
    }
    assert!(one.robot_outside && two.robot_outside);
}

#[test]
fn next_moves_prunes_hopeless_states() {
    // No exit bonds exist, so the cache finds no escape and reports no
    // moves at all, telling the caller to prune the branch.
    let (m, s) = grid(3, 3, "### #X# ###", vec![]);
    let mut memo = StateMemo::new();
    let moves = m.next_moves(&mut memo, &s);
    assert!(moves.is_empty());
}

#[test]
fn repeated_queries_return_equal_moves() {
    // Once a state's node is solved, a second query reads the cache
    // without touching it and returns the same entries.
    let (m, s) = grid(3, 4, "#### #.X. ####", vec![]);
    let mut memo = StateMemo::new();
    let first = m.next_moves(&mut memo, &s);
    let second = m.next_moves(&mut memo, &s.duplicate());
    assert_eq!(first.len(), second.len());
    for (a, b) in first.iter().zip(second.iter()) {
        assert_eq!(a.0, b.0);
        assert_eq!(a.1, b.1);
        assert_eq!(a.2, b.2);
        assert!(a.3.identity_eq(&b.3));
    }
    // A hopeless state answers with no entries, every time.
    let (m2, s2) = grid(3, 3, "### #X# ###", vec![]);
    let mut memo2 = StateMemo::new();
    assert!(m2.next_moves(&mut memo2, &s2).is_empty());
    assert!(m2.next_moves(&mut memo2, &s2.duplicate()).is_empty());
}

#[test]
fn memoized_solver_answers_winning_start_with_no_moves() {
    let a = grid(3, 2, "## #X ##", vec![]);
    let b = grid(3, 2, "## #X ##", vec![]);
    let (maze, state) = pair(a, b);
    let mut one = state.maze_one_state;
    let mut two = state.maze_two_state;
    one.robot_outside = true;
    two.robot_outside = true;
    let start = MazeState { maze_one_state: one, maze_two_state: two, solution: Vec::new() };
    let solution = maze.solve_memoized(&start).expect("already winning");
    assert!(solution.is_empty());
    let exact = maze.solve(&start).expect("already winning");
    assert!(exact.is_empty());
}

#[test]
fn from_grid_rejects_malformed_descriptions() {
    // Unknown cell character.
    assert!(SingleMaze::from_grid(1, 2, &cells_of("X?"), &Vec::new()).is_none());
    // No robot marker, then two robot markers.
    assert!(SingleMaze::from_grid(1, 2, &cells_of(".."), &Vec::new()).is_none());
    assert!(SingleMaze::from_grid(1, 2, &cells_of("XX"), &Vec::new()).is_none());
    // Cell count does not match the dimensions.
    assert!(SingleMaze::from_grid(2, 2, &cells_of("X."), &Vec::new()).is_none());
    // Zero dimensions.
    assert!(SingleMaze::from_grid(0, 2, &Vec::new(), &Vec::new()).is_none());
    // Guard starting off the grid.
    let off = GuardSetup { row: 1, col: 0, patrol_path_size: 1, direction: Direction::East };
    assert!(SingleMaze::from_grid(1, 3, &cells_of("X.."), &vec![off]).is_none());
    // Patrol walking off the grid edge.
    let runaway = GuardSetup { row: 0, col: 1, patrol_path_size: 3, direction: Direction::East };
    assert!(SingleMaze::from_grid(1, 3, &cells_of("X.."), &vec![runaway]).is_none());
    // The same patrol kept on the grid is accepted.
    let ok = GuardSetup { row: 0, col: 0, patrol_path_size: 3, direction: Direction::East };
    assert!(SingleMaze::from_grid(1, 3, &cells_of("X.."), &vec![ok]).is_some());
}

#[test]
fn solution_text_formats_lengths_and_moves() {
    assert_eq!(solution_text(&None), "-1");
    assert_eq!(solution_text(&Some(vec![])), "0");
    assert_eq!(
        solution_text(&Some(vec![Direction::North, Direction::West, Direction::South])),
        "3\nN\nW\nS"
    );
    let twelve = vec![Direction::North; 12];
    let text = solution_text(&Some(twelve));
    assert!(text.starts_with("12\nN"));
}

#[test]
fn pyramid_maximum_path() {
    let rows = vec![vec![1], vec![2, 3], vec![4, 5, 6]];
    assert_eq!(max_path_pyramid(&rows), 10);
    let single = vec![vec![7]];
    assert_eq!(max_path_pyramid(&single), 7);
    let zigzag = vec![vec![1], vec![9, 1], vec![1, 1, 9], vec![9, 9, 9, 1]];
    // 1 + 9 + 1 + 9 and 1 + 1 + 9 + 9 both reach 20.
    assert_eq!(max_path_pyramid(&zigzag), 20);
}
