use array2d::Array2D;
use maze_solver::Direction;
use maze_solver::MazeCell;
use maze_solver::MazeState;
use maze_solver::grid::check_maze_table;
use maze_solver::grid::parse_maze_cell_line;
use maze_solver::grid::position_in_table;
use maze_solver::state::get_new_state_if_neighbour_valid;
use maze_solver::state::get_valid_neighbours;

fn cell(row: usize, col: usize, dirs: &[Direction], exit: bool) -> MazeCell {
    let mut c = MazeCell::new();
    c.row_index = row;
    c.col_index = col;
    c.end_of_maze = exit;
    for d in dirs {
        c.available_directions.push(*d);
    }
    c
}

fn state(
    pos: (usize, usize),
    doors: &[(usize, usize, Direction)],
    keys: &[(usize, usize)],
    held: u32,
) -> MazeState {
    let mut s = MazeState::new();
    s.current_position = pos;
    s.cells_with_locked_doors = doors.to_vec();
    s.keys_left = keys.to_vec();
    s.num_keys_to_use = held;
    s
}

#[test]
fn new_cell_is_empty() {
    let c = MazeCell::new();
    assert_eq!(c.row_index, 0);
    assert_eq!(c.col_index, 0);
    assert!(c.available_directions.is_empty());
    assert!(!c.end_of_maze);
}

#[test]
fn new_state_is_empty() {
    let s = MazeState::new();
    assert_eq!(s.current_position, (0, 0));
    assert!(s.previous_positions.is_empty());
    assert!(s.cells_with_locked_doors.is_empty());
    assert!(s.keys_left.is_empty());
    assert_eq!(s.num_keys_to_use, 0);
}

#[test]
fn duplicate_copies_every_field() {
    let mut s = state((1, 2), &[(0, 0, Direction::East)], &[(1, 0)], 3);
    s.previous_positions.push((0, 2));
    let d = s.duplicate();
    assert_eq!(d.current_position, (1, 2));
    assert_eq!(d.previous_positions, vec![(0, 2)]);
    assert_eq!(d.cells_with_locked_doors, vec![(0, 0, Direction::East)]);
    assert_eq!(d.keys_left, vec![(1, 0)]);
    assert_eq!(d.num_keys_to_use, 3);
}

#[test]
fn opposite_directions_pair_up() {
    assert_eq!(Direction::West.opposite(), Direction::East);
    assert_eq!(Direction::East.opposite(), Direction::West);
    assert_eq!(Direction::North.opposite(), Direction::South);
    assert_eq!(Direction::South.opposite(), Direction::North);
}

#[test]
fn parse_line_reads_all_flags() {
    // open: west, north; locked door: east; key present; exit present
    let line: Vec<char> = "1010 0100 1111".chars().collect();
    let p = parse_maze_cell_line(&line, 2, 5).unwrap();
    assert_eq!(p.cell.row_index, 2);
    assert_eq!(p.cell.col_index, 5);
    assert_eq!(
        p.cell.available_directions,
        vec![Direction::West, Direction::North]
    );
    assert_eq!(p.locked_directions, vec![Direction::East]);
    assert!(p.has_key);
    assert!(p.cell.end_of_maze);
}

#[test]
fn parse_line_rejects_short_line() {
    let line: Vec<char> = "1010 0100".chars().collect();
    assert!(parse_maze_cell_line(&line, 0, 0).is_none());
}

#[test]
fn parse_line_without_flags() {
    let line: Vec<char> = "0000 0000 0000".chars().collect();
    let p = parse_maze_cell_line(&line, 0, 0).unwrap();
    assert!(p.cell.available_directions.is_empty());
    assert!(p.locked_directions.is_empty());
    assert!(!p.has_key);
    assert!(!p.cell.end_of_maze);
}

#[test]
fn well_formed_table_passes_check() {
    let rows = vec![
        vec![
            cell(0, 0, &[Direction::East], false),
            cell(0, 1, &[Direction::West], true),
        ],
    ];
    let table = Array2D::from_rows(&rows).unwrap();
    assert!(check_maze_table(&table));
}

#[test]
fn direction_off_the_grid_fails_check() {
    // the only cell opens to the east, where no cell exists
    let rows = vec![vec![cell(0, 0, &[Direction::East], false)]];
    let table = Array2D::from_rows(&rows).unwrap();
    assert!(!check_maze_table(&table));
}

#[test]
fn wrong_coordinates_fail_check() {
    let rows = vec![vec![cell(0, 0, &[], false), cell(0, 0, &[], false)]];
    let table = Array2D::from_rows(&rows).unwrap();
    assert!(!check_maze_table(&table));
}

#[test]
fn covers_walked_and_current_positions_only() {
    let mut s = state((1, 1), &[], &[], 0);
    s.previous_positions.push((0, 1));
    assert!(s.covers((0, 1)));
    assert!(s.covers((1, 1)));
    assert!(!s.covers((0, 0)));
}

#[test]
fn door_and_key_queries_read_the_state() {
    let s = state((0, 0), &[(0, 0, Direction::East)], &[(1, 0)], 0);
    assert!(s.has_locked_door(0, 0, Direction::East));
    assert!(!s.has_locked_door(0, 0, Direction::West));
    assert!(!s.has_locked_door(0, 1, Direction::East));
    assert!(s.has_key_at((1, 0)));
    assert!(!s.has_key_at((0, 1)));
}

#[test]
fn open_direction_query_reads_the_cell() {
    let c = cell(0, 0, &[Direction::East, Direction::South], false);
    assert!(c.has_open_direction(Direction::East));
    assert!(c.has_open_direction(Direction::South));
    assert!(!c.has_open_direction(Direction::West));
}

#[test]
fn position_in_table_matches_dimensions() {
    let rows = vec![
        vec![cell(0, 0, &[], false), cell(0, 1, &[], false)],
        vec![cell(1, 0, &[], false), cell(1, 1, &[], true)],
    ];
    let table = Array2D::from_rows(&rows).unwrap();
    assert!(position_in_table(&table, (0, 0)));
    assert!(position_in_table(&table, (1, 1)));
    assert!(!position_in_table(&table, (2, 0)));
    assert!(!position_in_table(&table, (0, 2)));
}

#[test]
fn step_without_door_keeps_keys() {
    let s = state((0, 0), &[], &[], 2);
    let c = cell(0, 0, &[Direction::East], false);
    let ns = get_new_state_if_neighbour_valid(&s, &c, Direction::East).unwrap();
    assert_eq!(ns.current_position, (0, 1));
    assert_eq!(ns.num_keys_to_use, 2);
    assert_eq!(ns.previous_positions, vec![(0, 0)]);
    assert!(ns.cells_with_locked_doors.is_empty());
}

#[test]
fn locked_door_without_key_blocks() {
    let s = state((0, 0), &[(0, 0, Direction::East), (0, 1, Direction::West)], &[], 0);
    let c = cell(0, 0, &[Direction::East], false);
    assert!(get_new_state_if_neighbour_valid(&s, &c, Direction::East).is_none());
}

#[test]
fn unlocking_removes_both_sides_of_the_wall() {
    let s = state((0, 0), &[(0, 0, Direction::East), (0, 1, Direction::West)], &[], 1);
    let c = cell(0, 0, &[Direction::East], false);
    let ns = get_new_state_if_neighbour_valid(&s, &c, Direction::East).unwrap();
    assert_eq!(ns.num_keys_to_use, 0);
    assert!(ns.cells_with_locked_doors.is_empty());
}

#[test]
fn key_on_entered_cell_is_picked_up() {
    let s = state((0, 0), &[], &[(0, 1), (1, 1)], 0);
    let c = cell(0, 0, &[Direction::East], false);
    let ns = get_new_state_if_neighbour_valid(&s, &c, Direction::East).unwrap();
    assert_eq!(ns.num_keys_to_use, 1);
    assert_eq!(ns.keys_left, vec![(1, 1)]);
}

#[test]
fn key_picked_up_this_step_does_not_pay_for_its_door() {
    // the door ahead is locked, no key in hand, and the key lies on the
    // cell behind the door: the step must still be blocked
    let s = state(
        (0, 0),
        &[(0, 0, Direction::East), (0, 1, Direction::West)],
        &[(0, 1)],
        0,
    );
    let c = cell(0, 0, &[Direction::East], false);
    assert!(get_new_state_if_neighbour_valid(&s, &c, Direction::East).is_none());
}

#[test]
fn neighbours_follow_the_cell_direction_order() {
    let rows = vec![
        vec![
            cell(0, 0, &[Direction::East, Direction::South], false),
            cell(0, 1, &[Direction::West], false),
        ],
        vec![cell(1, 0, &[Direction::North], false), cell(1, 1, &[], false)],
    ];
    let table = Array2D::from_rows(&rows).unwrap();
    assert!(check_maze_table(&table));
    let s = state((0, 0), &[], &[], 0);
    let ns = get_valid_neighbours(&table, &s);
    assert_eq!(ns.len(), 2);
    assert_eq!(ns[0].current_position, (0, 1));
    assert_eq!(ns[1].current_position, (1, 0));
}
