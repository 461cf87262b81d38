//! Traversal states and the successor rule.
//!
//! A traversal state is an independently owned snapshot of search progress:
//! the current position, the positions already walked, the doors still
//! locked on this branch, the keys still lying on the grid, and the number
//! of keys in hand. Expanding a state tries each open direction of its
//! cell: a locked door costs a key and unlocks both of its sides, and a key
//! on the entered cell is picked up — after the door check, so a key picked
//! up in the same move never pays for that move's door.

use vstd::prelude::*;

use crate::grid::Direction;
use crate::grid::MazeCell;
use crate::grid::array2d_cells;
use crate::grid::cell_at;
use crate::grid::cell_wf;
use crate::grid::grid_wf;
use crate::grid::in_bounds;
use crate::grid::opposite;
use crate::grid::table_get;

verus! {

/// The mathematical value of a [`MazeState`].
pub ghost struct StateModel {
    pub pos: (usize, usize),
    pub path: Seq<(usize, usize)>,
    pub doors: Seq<(usize, usize, Direction)>,
    pub keys: Seq<(usize, usize)>,
    pub held: u32,
}

/// One snapshot of search progress, owned by its branch of the search.
#[derive(Debug)]
pub struct MazeState {
    pub current_position: (usize, usize),
    pub previous_positions: Vec<(usize, usize)>,
    pub cells_with_locked_doors: Vec<(usize, usize, Direction)>,
    pub keys_left: Vec<(usize, usize)>,
    pub num_keys_to_use: u32,
}

impl View for MazeState {
    type V = StateModel;

    open spec fn view(&self) -> StateModel {
        StateModel {
            pos: self.current_position,
            path: self.previous_positions@,
            doors: self.cells_with_locked_doors@,
            keys: self.keys_left@,
            held: self.num_keys_to_use,
        }
    }
}

impl MazeState {
    /// A state at the origin with nothing walked, no doors, no keys.
    pub fn new() -> (s: MazeState)
        ensures
            s@.pos == (0usize, 0usize),
            s@.path == Seq::<(usize, usize)>::empty(),
            s@.doors == Seq::<(usize, usize, Direction)>::empty(),
            s@.keys == Seq::<(usize, usize)>::empty(),
            s@.held == 0u32,
    {
        MazeState {
            current_position: (0, 0),
            previous_positions: Vec::new(),
            cells_with_locked_doors: Vec::new(),
            keys_left: Vec::new(),
            num_keys_to_use: 0,
        }
    }

    /// Whether the walk of this state touches a position: it was walked
    /// earlier or is the current position.
    pub fn covers(&self, pos: (usize, usize)) -> (r: bool)
        ensures
            r == (self@.path.contains(pos) || self@.pos == pos),
    {
        positions_contain(&self.previous_positions, &pos) || (self.current_position.0 == pos.0
            && self.current_position.1 == pos.1)
    }

    /// Whether this state still holds the given side of a wall locked.
    pub fn has_locked_door(&self, row: usize, col: usize, direction: Direction) -> (r: bool)
        ensures
            r == self@.doors.contains((row, col, direction)),
    {
        doors_contain(&self.cells_with_locked_doors, &(row, col, direction))
    }

    /// Whether a key still lies on the given cell in this state.
    pub fn has_key_at(&self, pos: (usize, usize)) -> (r: bool)
        ensures
            r == self@.keys.contains(pos),
    {
        positions_contain(&self.keys_left, &pos)
    }

    /// An independent copy of this state, sharing no mutable structure.
    pub fn duplicate(&self) -> (r: MazeState)
        ensures
            r@ == self@,
    {
        MazeState {
            current_position: self.current_position,
            previous_positions: copy_positions(&self.previous_positions),
            cells_with_locked_doors: copy_doors(&self.cells_with_locked_doors),
            keys_left: copy_positions(&self.keys_left),
            num_keys_to_use: self.num_keys_to_use,
        }
    }
}

/// The position one step away in a direction. The casts wrap at the edges
/// of the usize range; the solvers only apply this to steps that stay on
/// the grid, where no wrap occurs.
pub open spec fn neighbour_pos(p: (usize, usize), d: Direction) -> (usize, usize) {
    match d {
        Direction::West => (p.0, (p.1 - 1) as usize),
        Direction::East => (p.0, (p.1 + 1) as usize),
        Direction::North => ((p.0 - 1) as usize, p.1),
        Direction::South => ((p.0 + 1) as usize, p.1),
    }
}

/// The sequence with every occurrence of two door records removed, order
/// otherwise kept.
pub open spec fn without_pair(
    doors: Seq<(usize, usize, Direction)>,
    a: (usize, usize, Direction),
    b: (usize, usize, Direction),
) -> Seq<(usize, usize, Direction)>
    decreases doors.len(),
{
    if doors.len() == 0 {
        doors
    } else {
        let rest = without_pair(doors.drop_last(), a, b);
        if doors.last() != a && doors.last() != b {
            rest.push(doors.last())
        } else {
            rest
        }
    }
}

/// The sequence with every occurrence of one position removed, order
/// otherwise kept.
pub open spec fn without_pos(keys: Seq<(usize, usize)>, p: (usize, usize)) -> Seq<(usize, usize)>
    decreases keys.len(),
{
    if keys.len() == 0 {
        keys
    } else {
        let rest = without_pos(keys.drop_last(), p);
        if keys.last() != p {
            rest.push(keys.last())
        } else {
            rest
        }
    }
}

/// The successor rule. Stepping out of `s.pos` in direction `d`:
/// a locked door on this side blocks the step when no key is held, and
/// otherwise costs one key and unlocks both sides of the wall; a key on the
/// entered cell is then picked up; the old position is appended to the
/// path. A key picked up by this very step does not pay for its door.
pub open spec fn successor_model(s: StateModel, d: Direction) -> Option<StateModel> {
    let np = neighbour_pos(s.pos, d);
    let here = (s.pos.0, s.pos.1, d);
    let there = (np.0, np.1, opposite(d));
    if s.doors.contains(here) && s.held == 0 {
        None
    } else {
        let doors1 = if s.doors.contains(here) {
            without_pair(s.doors, here, there)
        } else {
            s.doors
        };
        let held1 = if s.doors.contains(here) {
            (s.held - 1) as u32
        } else {
            s.held
        };
        let keys1 = if s.keys.contains(np) {
            without_pos(s.keys, np)
        } else {
            s.keys
        };
        let held2 = if s.keys.contains(np) {
            (held1 + 1) as u32
        } else {
            held1
        };
        Some(StateModel { pos: np, path: s.path.push(s.pos), doors: doors1, keys: keys1, held: held2 })
    }
}

/// The successors of a state for a list of directions, in list order.
pub open spec fn expand_model(dirs: Seq<Direction>, s: StateModel) -> Seq<StateModel>
    decreases dirs.len(),
{
    if dirs.len() == 0 {
        Seq::<StateModel>::empty()
    } else {
        let rest = expand_model(dirs.drop_last(), s);
        match successor_model(s, dirs.last()) {
            Some(ns) => rest.push(ns),
            None => rest,
        }
    }
}

/// The other side of the same wall: the record a neighbouring cell keeps
/// for one locked door.
pub open spec fn door_pair(door: (usize, usize, Direction)) -> (usize, usize, Direction) {
    let np = neighbour_pos((door.0, door.1), door.2);
    (np.0, np.1, opposite(door.2))
}

/// The door's step stays inside the usize range, so taking it and coming
/// back lands on the same cell. Doors of a well-formed maze lie on inner
/// walls and satisfy this.
pub open spec fn door_steps_in_range(door: (usize, usize, Direction)) -> bool {
    &&& door.2 == Direction::West ==> door.1 > 0
    &&& door.2 == Direction::East ==> door.1 < usize::MAX
    &&& door.2 == Direction::North ==> door.0 > 0
    &&& door.2 == Direction::South ==> door.0 < usize::MAX
}

/// Every locked door in the list has the record for the other side of
/// its wall in the list too.
pub open spec fn doors_symmetric(doors: Seq<(usize, usize, Direction)>) -> bool {
    forall|i: int| 0 <= i < doors.len() ==> doors.contains(door_pair(#[trigger] doors[i]))
}

proof fn lemma_door_pair_involution(door: (usize, usize, Direction))
    requires
        door_steps_in_range(door),
    ensures
        door_pair(door_pair(door)) == door,
{
}

pub(crate) proof fn lemma_without_pair_contains(
    doors: Seq<(usize, usize, Direction)>,
    a: (usize, usize, Direction),
    b: (usize, usize, Direction),
    x: (usize, usize, Direction),
)
    ensures
        without_pair(doors, a, b).contains(x) <==> (doors.contains(x) && x != a && x != b),
    decreases doors.len(),
{
    if doors.len() > 0 {
        lemma_without_pair_contains(doors.drop_last(), a, b, x);
        assert(doors.drop_last().contains(x) ==> doors.contains(x));
        if doors.contains(x) && x != doors.last() {
            let i = choose|i: int| 0 <= i < doors.len() && doors[i] == x;
            assert(doors.drop_last()[i] == x);
            assert(doors.drop_last().contains(x));
        }
        let rest = without_pair(doors.drop_last(), a, b);
        if doors.last() != a && doors.last() != b {
            assert(without_pair(doors, a, b) == rest.push(doors.last()));
            assert forall|y: (usize, usize, Direction)|
                rest.push(doors.last()).contains(y) implies rest.contains(y) || y
                == doors.last() by {
                let i = choose|i: int|
                    0 <= i < rest.push(doors.last()).len() && rest.push(doors.last())[i] == y;
                if i < rest.len() {
                    assert(rest[i] == y);
                }
            }
            if x == doors.last() {
                assert(rest.push(doors.last())[rest.len() as int] == x);
                assert(rest.push(doors.last()).contains(x));
            } else if rest.contains(x) {
                let i = choose|i: int| 0 <= i < rest.len() && rest[i] == x;
                assert(rest.push(doors.last())[i] == x);
                assert(rest.push(doors.last()).contains(x));
            }
        }
    }
}

/// Door symmetry survives expansion: in every successor state, a locked
/// door whose record is gone has the record of the other side of its
/// wall gone as well, and every record still present keeps its partner.
/// The unlock step removes both sides of the wall it opens and nothing
/// else.
pub proof fn lemma_expansion_preserves_door_symmetry(
    s: StateModel,
    d: Direction,
    ns: StateModel,
)
    requires
        doors_symmetric(s.doors),
        forall|i: int| 0 <= i < s.doors.len() ==> door_steps_in_range(#[trigger] s.doors[i]),
        door_steps_in_range((s.pos.0, s.pos.1, d)),
        successor_model(s, d) == Some(ns),
    ensures
        doors_symmetric(ns.doors),
        forall|x: (usize, usize, Direction)|
            door_steps_in_range(x) && !ns.doors.contains(x) ==> !ns.doors.contains(
                #[trigger] door_pair(x),
            ),
{
    let here = (s.pos.0, s.pos.1, d);
    let np = neighbour_pos(s.pos, d);
    let there = (np.0, np.1, opposite(d));
    assert(there == door_pair(here));
    lemma_door_pair_involution(here);
    if s.doors.contains(here) {
        assert(ns.doors == without_pair(s.doors, here, there));
        assert forall|i: int| 0 <= i < ns.doors.len() implies ns.doors.contains(
            door_pair(#[trigger] ns.doors[i]),
        ) by {
            let x = ns.doors[i];
            lemma_without_pair_contains(s.doors, here, there, x);
            let ix = choose|ix: int| 0 <= ix < s.doors.len() && s.doors[ix] == x;
            assert(door_steps_in_range(x));
            lemma_door_pair_involution(x);
            assert(s.doors.contains(door_pair(x)));
            if door_pair(x) == here {
                assert(x == there);
            }
            if door_pair(x) == there {
                assert(door_pair(door_pair(x)) == door_pair(there));
                assert(x == here);
            }
            lemma_without_pair_contains(s.doors, here, there, door_pair(x));
        }
    } else {
        assert(ns.doors == s.doors);
    }
    assert forall|x: (usize, usize, Direction)|
        door_steps_in_range(x) && !ns.doors.contains(x) implies !ns.doors.contains(
        door_pair(x),
    ) by {
        if ns.doors.contains(door_pair(x)) {
            let i = choose|i: int| 0 <= i < ns.doors.len() && ns.doors[i] == door_pair(x);
            assert(ns.doors.contains(door_pair(ns.doors[i])));
            lemma_door_pair_involution(x);
            assert(door_pair(ns.doors[i]) == x);
        }
    }
}

/// The models of a list of states, in order.
pub open spec fn models_of(states: Seq<MazeState>) -> Seq<StateModel> {
    states.map_values(|s: MazeState| s@)
}

/// The model of an optional state.
pub open spec fn opt_model(r: Option<MazeState>) -> Option<StateModel> {
    match r {
        Some(s) => Some(s@),
        None => None,
    }
}

fn door_eq(a: &(usize, usize, Direction), b: &(usize, usize, Direction)) -> (r: bool)
    ensures
        r == (*a == *b),
{
    a.0 == b.0 && a.1 == b.1 && a.2 == b.2
}

fn doors_contain(
    doors: &Vec<(usize, usize, Direction)>,
    d: &(usize, usize, Direction),
) -> (r: bool)
    ensures
        r == doors@.contains(*d),
{
    let mut i: usize = 0;
    while i < doors.len()
        invariant
            i <= doors@.len(),
            forall|j: int| 0 <= j < i ==> doors@[j] != *d,
        decreases doors@.len() - i,
    {
        if door_eq(&doors[i], d) {
            return true;
        }
        i = i + 1;
    }
    false
}

fn positions_contain(keys: &Vec<(usize, usize)>, p: &(usize, usize)) -> (r: bool)
    ensures
        r == keys@.contains(*p),
{
    let mut i: usize = 0;
    while i < keys.len()
        invariant
            i <= keys@.len(),
            forall|j: int| 0 <= j < i ==> keys@[j] != *p,
        decreases keys@.len() - i,
    {
        if keys[i].0 == p.0 && keys[i].1 == p.1 {
            return true;
        }
        i = i + 1;
    }
    false
}

fn copy_doors_without_pair(
    doors: &Vec<(usize, usize, Direction)>,
    a: &(usize, usize, Direction),
    b: &(usize, usize, Direction),
) -> (r: Vec<(usize, usize, Direction)>)
    ensures
        r@ == without_pair(doors@, *a, *b),
{
    let mut r: Vec<(usize, usize, Direction)> = Vec::new();
    let mut i: usize = 0;
    while i < doors.len()
        invariant
            i <= doors@.len(),
            r@ == without_pair(doors@.take(i as int), *a, *b),
        decreases doors@.len() - i,
    {
        let keep = !door_eq(&doors[i], a) && !door_eq(&doors[i], b);
        if keep {
            r.push(doors[i]);
        }
        assert(doors@.take(i + 1).drop_last() =~= doors@.take(i as int));
        assert(doors@.take(i + 1).last() == doors@[i as int]);
        i = i + 1;
    }
    assert(doors@.take(doors@.len() as int) =~= doors@);
    r
}

fn copy_keys_without_pos(keys: &Vec<(usize, usize)>, p: &(usize, usize)) -> (r: Vec<
    (usize, usize),
>)
    ensures
        r@ == without_pos(keys@, *p),
{
    let mut r: Vec<(usize, usize)> = Vec::new();
    let mut i: usize = 0;
    while i < keys.len()
        invariant
            i <= keys@.len(),
            r@ == without_pos(keys@.take(i as int), *p),
        decreases keys@.len() - i,
    {
        let keep = !(keys[i].0 == p.0 && keys[i].1 == p.1);
        if keep {
            r.push(keys[i]);
        }
        assert(keys@.take(i + 1).drop_last() =~= keys@.take(i as int));
        assert(keys@.take(i + 1).last() == keys@[i as int]);
        i = i + 1;
    }
    assert(keys@.take(keys@.len() as int) =~= keys@);
    r
}

fn copy_positions(v: &Vec<(usize, usize)>) -> (r: Vec<(usize, usize)>)
    ensures
        r@ == v@,
{
    let mut r: Vec<(usize, usize)> = Vec::new();
    let mut i: usize = 0;
    while i < v.len()
        invariant
            i <= v@.len(),
            r@ == v@.take(i as int),
        decreases v@.len() - i,
    {
        r.push(v[i]);
        assert(v@.take(i + 1).drop_last() =~= v@.take(i as int));
        i = i + 1;
    }
    assert(v@.take(v@.len() as int) =~= v@);
    r
}

fn copy_doors(v: &Vec<(usize, usize, Direction)>) -> (r: Vec<(usize, usize, Direction)>)
    ensures
        r@ == v@,
{
    let mut r: Vec<(usize, usize, Direction)> = Vec::new();
    let mut i: usize = 0;
    while i < v.len()
        invariant
            i <= v@.len(),
            r@ == v@.take(i as int),
        decreases v@.len() - i,
    {
        r.push(v[i]);
        assert(v@.take(i + 1).drop_last() =~= v@.take(i as int));
        i = i + 1;
    }
    assert(v@.take(v@.len() as int) =~= v@);
    r
}

/// The successor state for one direction out of the current cell, or
/// nothing when a locked door blocks the step and no key is held.
pub fn get_new_state_if_neighbour_valid(
    maze_state: &MazeState,
    current_cell: &MazeCell,
    direction: Direction,
) -> (r: Option<MazeState>)
    requires
        current_cell.row_index == maze_state.current_position.0,
        current_cell.col_index == maze_state.current_position.1,
        direction == Direction::West ==> maze_state.current_position.1 > 0,
        direction == Direction::North ==> maze_state.current_position.0 > 0,
        direction == Direction::East ==> maze_state.current_position.1 < usize::MAX,
        direction == Direction::South ==> maze_state.current_position.0 < usize::MAX,
        maze_state@.held + maze_state@.keys.len() <= u32::MAX,
    ensures
        opt_model(r) == successor_model(maze_state@, direction),
{
    let neighbour_position: (usize, usize);
    let opposite_direction: Direction;
    match direction {
        Direction::West => {
            neighbour_position = (current_cell.row_index, current_cell.col_index - 1);
            opposite_direction = Direction::East;
        },
        Direction::East => {
            neighbour_position = (current_cell.row_index, current_cell.col_index + 1);
            opposite_direction = Direction::West;
        },
        Direction::North => {
            neighbour_position = (current_cell.row_index - 1, current_cell.col_index);
            opposite_direction = Direction::South;
        },
        Direction::South => {
            neighbour_position = (current_cell.row_index + 1, current_cell.col_index);
            opposite_direction = Direction::North;
        },
    }
    let here = (maze_state.current_position.0, maze_state.current_position.1, direction);

    let mut num_keys_to_use = maze_state.num_keys_to_use;
    let cells_with_locked_doors: Vec<(usize, usize, Direction)>;

    if doors_contain(&maze_state.cells_with_locked_doors, &here) {
        if maze_state.num_keys_to_use > 0 {
            num_keys_to_use = num_keys_to_use - 1;
            let there = (neighbour_position.0, neighbour_position.1, opposite_direction);
            cells_with_locked_doors = copy_doors_without_pair(
                &maze_state.cells_with_locked_doors,
                &here,
                &there,
            );
        } else {
            return None;
        }
    } else {
        cells_with_locked_doors = copy_doors(&maze_state.cells_with_locked_doors);
    }

    let keys_left: Vec<(usize, usize)>;
    if positions_contain(&maze_state.keys_left, &neighbour_position) {
        num_keys_to_use = num_keys_to_use + 1;
        keys_left = copy_keys_without_pos(&maze_state.keys_left, &neighbour_position);
    } else {
        keys_left = copy_positions(&maze_state.keys_left);
    }

    let mut previous_positions = copy_positions(&maze_state.previous_positions);
    previous_positions.push(maze_state.current_position);

    Some(
        MazeState {
            current_position: neighbour_position,
            previous_positions,
            cells_with_locked_doors,
            keys_left,
            num_keys_to_use,
        },
    )
}

/// All successors of a state, one candidate per open direction of its
/// cell, in the cell's direction order; directions blocked by a locked
/// door that cannot be paid for yield no successor.
pub fn get_valid_neighbours(
    maze_table: &array2d::Array2D<MazeCell>,
    maze_state: &MazeState,
) -> (r: Vec<MazeState>)
    requires
        grid_wf(array2d_cells(*maze_table)),
        in_bounds(array2d_cells(*maze_table), maze_state@.pos),
        maze_state@.held + maze_state@.keys.len() <= u32::MAX,
    ensures
        models_of(r@) == expand_model(
            cell_at(array2d_cells(*maze_table), maze_state@.pos).available_directions@,
            maze_state@,
        ),
{
    let ghost grid = array2d_cells(*maze_table);
    let current_cell = match table_get(
        maze_table,
        maze_state.current_position.0,
        maze_state.current_position.1,
    ) {
        Some(cell) => cell,
        None => {
            return vstd::pervasive::unreached();
        },
    };
    let ghost dirs = current_cell.available_directions@;
    proof {
        assert(cell_wf(grid, maze_state@.pos.0 as int, maze_state@.pos.1 as int));
    }
    let mut valid_neighbours: Vec<MazeState> = Vec::new();
    let mut i: usize = 0;
    while i < current_cell.available_directions.len()
        invariant
            grid_wf(grid),
            grid == array2d_cells(*maze_table),
            in_bounds(grid, maze_state@.pos),
            maze_state@.held + maze_state@.keys.len() <= u32::MAX,
            *current_cell == cell_at(grid, maze_state@.pos),
            dirs == current_cell.available_directions@,
            cell_wf(grid, maze_state@.pos.0 as int, maze_state@.pos.1 as int),
            i <= dirs.len(),
            models_of(valid_neighbours@) == expand_model(dirs.take(i as int), maze_state@),
        decreases dirs.len() - i,
    {
        let direction = current_cell.available_directions[i];
        proof {
            assert(dirs.contains(dirs[i as int]));
        }
        let ghost before = models_of(valid_neighbours@);
        match get_new_state_if_neighbour_valid(maze_state, current_cell, direction) {
            Some(neighbour_state) => {
                valid_neighbours.push(neighbour_state);
                proof {
                    assert(models_of(valid_neighbours@) =~= before.push(neighbour_state@));
                }
            },
            None => {},
        }
        proof {
            assert(dirs.take(i + 1).drop_last() =~= dirs.take(i as int));
            assert(dirs.take(i + 1).last() == dirs[i as int]);
        }
        i = i + 1;
    }
    proof {
        assert(dirs.take(dirs.len() as int) =~= dirs);
    }
    valid_neighbours
}

} // verus!
