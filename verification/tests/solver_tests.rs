use array2d::Array2D;
use maze_solver::Direction;
use maze_solver::MazeCell;
use maze_solver::MazeState;
use maze_solver::grid::check_maze_table;
use maze_solver::search::mark_visited_if_new;
use maze_solver::search::solve_maze_bfs;
use maze_solver::search::solve_maze_bfs_parallel;

fn cell(row: usize, col: usize, dirs: &[Direction], exit: bool) -> MazeCell {
    let mut c = MazeCell::new();
    c.row_index = row;
    c.col_index = col;
    c.end_of_maze = exit;
    for d in dirs {
        c.available_directions.push(*d);
    }
    c
}

fn state(
    pos: (usize, usize),
    doors: &[(usize, usize, Direction)],
    keys: &[(usize, usize)],
    held: u32,
) -> MazeState {
    let mut s = MazeState::new();
    s.current_position = pos;
    s.cells_with_locked_doors = doors.to_vec();
    s.keys_left = keys.to_vec();
    s.num_keys_to_use = held;
    s
}

/// A single corridor: start at (0,0), exit two cells to the east.
fn corridor() -> Array2D<MazeCell> {
    let rows = vec![
        vec![
            cell(0, 0, &[Direction::East], false),
            cell(0, 1, &[Direction::West, Direction::East], false),
            cell(0, 2, &[Direction::West], true),
        ],
    ];
    let table = Array2D::from_rows(&rows).unwrap();
    assert!(check_maze_table(&table));
    table
}

#[test]
fn corridor_solved_sequentially() {
    let table = corridor();
    let end = solve_maze_bfs(&table, state((0, 0), &[], &[], 0)).unwrap();
    assert_eq!(end.current_position, (0, 2));
    assert_eq!(end.previous_positions, vec![(0, 0), (0, 1)]);
}

#[test]
fn corridor_solved_in_parallel() {
    let table = corridor();
    let seq = solve_maze_bfs(&table, state((0, 0), &[], &[], 0)).unwrap();
    let par = solve_maze_bfs_parallel(&table, state((0, 0), &[], &[], 0)).unwrap();
    assert_eq!(par.current_position, (0, 2));
    assert_eq!(par.previous_positions, vec![(0, 0), (0, 1)]);
    assert_eq!(seq.previous_positions.len(), par.previous_positions.len());
}

/// A locked door directly east of the start, its key one cell to the
/// south, the exit beyond the door.
fn door_and_key() -> (Array2D<MazeCell>, MazeState) {
    let rows = vec![
        vec![
            cell(0, 0, &[Direction::East, Direction::South], false),
            cell(0, 1, &[Direction::West, Direction::East], false),
            cell(0, 2, &[Direction::West], true),
        ],
        vec![
            cell(1, 0, &[Direction::North], false),
            cell(1, 1, &[], false),
            cell(1, 2, &[], false),
        ],
    ];
    let table = Array2D::from_rows(&rows).unwrap();
    assert!(check_maze_table(&table));
    let initial = state(
        (0, 0),
        &[(0, 0, Direction::East), (0, 1, Direction::West)],
        &[(1, 0)],
        0,
    );
    (table, initial)
}

#[test]
fn key_is_fetched_before_the_door() {
    let (table, initial) = door_and_key();
    let end = solve_maze_bfs(&table, initial).unwrap();
    assert_eq!(end.current_position, (0, 2));
    // the key cell (1,0) is visited before the cell behind the door (0,1)
    assert_eq!(end.previous_positions, vec![(0, 0), (1, 0), (0, 0), (0, 1)]);
    let key_at = end.previous_positions.iter().position(|p| *p == (1, 0)).unwrap();
    let behind_door_at = end.previous_positions.iter().position(|p| *p == (0, 1)).unwrap();
    assert!(key_at < behind_door_at);
    // the spent key unlocked both sides of the wall
    assert!(end.cells_with_locked_doors.is_empty());
    assert_eq!(end.num_keys_to_use, 0);
}

#[test]
fn key_is_fetched_before_the_door_in_parallel() {
    let (table, initial) = door_and_key();
    let end = solve_maze_bfs_parallel(&table, initial).unwrap();
    assert_eq!(end.current_position, (0, 2));
    assert_eq!(end.previous_positions, vec![(0, 0), (1, 0), (0, 0), (0, 1)]);
}

/// Key and door present, but the exit cell has no connection at all.
fn walled_off() -> (Array2D<MazeCell>, MazeState) {
    let rows = vec![
        vec![
            cell(0, 0, &[Direction::East, Direction::South], false),
            cell(0, 1, &[Direction::West], false),
        ],
        vec![
            cell(1, 0, &[Direction::North], false),
            cell(1, 1, &[], true),
        ],
    ];
    let table = Array2D::from_rows(&rows).unwrap();
    assert!(check_maze_table(&table));
    let initial = state(
        (0, 0),
        &[(0, 0, Direction::East), (0, 1, Direction::West)],
        &[(1, 0)],
        0,
    );
    (table, initial)
}

#[test]
fn unreachable_exit_yields_no_solution() {
    let (table, initial) = walled_off();
    assert!(solve_maze_bfs(&table, initial).is_none());
}

#[test]
fn unreachable_exit_yields_no_solution_in_parallel() {
    let (table, initial) = walled_off();
    assert!(solve_maze_bfs_parallel(&table, initial).is_none());
}

#[test]
fn exit_only_behind_revisited_cell_is_found() {
    // without the key count in the visited key, returning to the start
    // after fetching the key would be refused and the maze unsolvable
    let (table, initial) = door_and_key();
    assert!(solve_maze_bfs(&table, initial).is_some());
}

/// Two routes of equal length reach the exit cell with different key
/// counts: west over the key cell, east without it.
fn two_routes() -> (Array2D<MazeCell>, MazeState) {
    let rows = vec![
        vec![
            cell(0, 0, &[Direction::East, Direction::South], false),
            cell(0, 1, &[Direction::West, Direction::East], false),
            cell(0, 2, &[Direction::West, Direction::South], false),
        ],
        vec![
            cell(1, 0, &[Direction::North, Direction::East], false),
            cell(1, 1, &[Direction::West, Direction::East], true),
            cell(1, 2, &[Direction::North, Direction::West], false),
        ],
    ];
    let table = Array2D::from_rows(&rows).unwrap();
    assert!(check_maze_table(&table));
    let initial = state((0, 1), &[], &[(0, 0)], 0);
    (table, initial)
}

#[test]
fn equal_routes_with_different_key_counts() {
    let (table, initial) = two_routes();
    let first = solve_maze_bfs(&table, initial.duplicate()).unwrap();
    let second = solve_maze_bfs(&table, initial.duplicate()).unwrap();
    // the sequential solver is deterministic: same path both runs
    assert_eq!(first.previous_positions, second.previous_positions);
    assert_eq!(first.current_position, second.current_position);
    assert_eq!(first.current_position, (1, 1));
    assert_eq!(first.previous_positions.len(), 3);
    // the work-per-branch solver returns a route of the same length
    let par = solve_maze_bfs_parallel(&table, initial).unwrap();
    assert_eq!(par.current_position, (1, 1));
    assert_eq!(par.previous_positions.len(), 3);
}

#[test]
fn solving_twice_gives_the_same_path() {
    let (table, initial) = door_and_key();
    let first = solve_maze_bfs(&table, initial.duplicate()).unwrap();
    let second = solve_maze_bfs(&table, initial).unwrap();
    assert_eq!(first.previous_positions, second.previous_positions);
    assert_eq!(first.current_position, second.current_position);
    assert_eq!(first.num_keys_to_use, second.num_keys_to_use);
}

#[test]
fn start_on_the_exit_is_solved_at_once() {
    let rows = vec![vec![cell(0, 0, &[], true)]];
    let table = Array2D::from_rows(&rows).unwrap();
    assert!(check_maze_table(&table));
    let end = solve_maze_bfs(&table, state((0, 0), &[], &[], 0)).unwrap();
    assert_eq!(end.current_position, (0, 0));
    assert!(end.previous_positions.is_empty());
}

#[test]
fn shortest_route_is_taken() {
    // a two-step corridor to the exit and a four-step detour below it
    let rows = vec![
        vec![
            cell(0, 0, &[Direction::East, Direction::South], false),
            cell(0, 1, &[Direction::West, Direction::East], false),
            cell(0, 2, &[Direction::West, Direction::South], true),
        ],
        vec![
            cell(1, 0, &[Direction::North, Direction::East], false),
            cell(1, 1, &[Direction::West, Direction::East], false),
            cell(1, 2, &[Direction::North, Direction::West], false),
        ],
    ];
    let table = Array2D::from_rows(&rows).unwrap();
    assert!(check_maze_table(&table));
    let end = solve_maze_bfs(&table, state((0, 0), &[], &[], 0)).unwrap();
    assert_eq!(end.current_position, (0, 2));
    assert_eq!(end.previous_positions, vec![(0, 0), (0, 1)]);
    let par = solve_maze_bfs_parallel(&table, state((0, 0), &[], &[], 0)).unwrap();
    assert_eq!(par.previous_positions.len(), 2);
}

#[test]
fn returned_path_crosses_only_open_passages() {
    let (table, initial) = door_and_key();
    let end = solve_maze_bfs(&table, initial).unwrap();
    let mut walk = end.previous_positions.clone();
    walk.push(end.current_position);
    for pair in walk.windows(2) {
        let (a, b) = (pair[0], pair[1]);
        let cell = table.get(a.0, a.1).unwrap();
        let step = cell.available_directions.iter().any(|d| {
            let to = match d {
                Direction::West => (a.0, a.1 - 1),
                Direction::East => (a.0, a.1 + 1),
                Direction::North => (a.0 - 1, a.1),
                Direction::South => (a.0 + 1, a.1),
            };
            to == b
        });
        assert!(step, "no open passage from {:?} to {:?}", a, b);
    }
}

#[test]
fn visited_set_inserts_each_key_once() {
    let mut visited: Vec<(usize, usize, u32)> = Vec::new();
    assert!(mark_visited_if_new(&mut visited, (0, 0, 0)));
    assert!(mark_visited_if_new(&mut visited, (0, 0, 1)));
    assert!(!mark_visited_if_new(&mut visited, (0, 0, 0)));
    assert_eq!(visited, vec![(0, 0, 0), (0, 0, 1)]);
}
