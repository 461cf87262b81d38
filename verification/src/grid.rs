//! Cells, the maze table, and the maze-definition line format.

use vstd::prelude::*;

verus! {

/// One of the four compass directions a passage can take.
#[derive(Clone, Copy, PartialEq, Eq, Structural, Debug)]
pub enum Direction {
    West,
    East,
    North,
    South,
}

/// The direction that leads back through the same wall.
pub open spec fn opposite(d: Direction) -> Direction {
    match d {
        Direction::West => Direction::East,
        Direction::East => Direction::West,
        Direction::North => Direction::South,
        Direction::South => Direction::North,
    }
}

impl Direction {
    /// The direction that leads back through the same wall.
    pub fn opposite(self) -> (r: Direction)
        ensures
            r == opposite(self),
    {
        match self {
            Direction::West => Direction::East,
            Direction::East => Direction::West,
            Direction::North => Direction::South,
            Direction::South => Direction::North,
        }
    }
}

/// One cell of the maze table: its coordinates, the directions in which it
/// has a passage, and whether it is the maze exit.
#[derive(Clone, Debug)]
pub struct MazeCell {
    pub row_index: usize,
    pub col_index: usize,
    pub available_directions: Vec<Direction>,
    pub end_of_maze: bool,
}

impl MazeCell {
    /// A cell at the origin with no passages, not an exit.
    pub fn new() -> (c: MazeCell)
        ensures
            c.row_index == 0,
            c.col_index == 0,
            c.available_directions@ == Seq::<Direction>::empty(),
            !c.end_of_maze,
    {
        MazeCell {
            row_index: 0,
            col_index: 0,
            available_directions: Vec::new(),
            end_of_maze: false,
        }
    }

    /// Whether this cell has a passage in the given direction.
    pub fn has_open_direction(&self, d: Direction) -> (r: bool)
        ensures
            r == self.available_directions@.contains(d),
    {
        dirs_contain(&self.available_directions, d)
    }
}

#[verifier::external_type_specification]
#[verifier::external_body]
#[verifier::reject_recursive_types(T)]
pub struct ExArray2D<T>(array2d::Array2D<T>);

/// What the maze table holds: entry `r` of the result lists the cells of
/// row `r` of the table, in column order.
pub uninterp spec fn array2d_cells(table: array2d::Array2D<MazeCell>) -> Seq<Seq<MazeCell>>;

/// Relies on array2d::Array2D::num_rows: the number of rows of the table.
#[verifier::external_body]
pub(crate) fn table_num_rows(table: &array2d::Array2D<MazeCell>) -> (r: usize)
    ensures
        r == array2d_cells(*table).len(),
{
    table.num_rows()
}

/// Relies on array2d::Array2D::num_columns: the number of columns of the
/// table; the table stores a rectangle, so every row has this many cells.
#[verifier::external_body]
pub(crate) fn table_num_columns(table: &array2d::Array2D<MazeCell>) -> (r: usize)
    ensures
        forall|i: int|
            0 <= i < array2d_cells(*table).len() ==> (#[trigger] array2d_cells(*table)[i]).len()
                == r,
{
    table.num_columns()
}

/// Relies on array2d::Array2D::get: the cell at (row, column) when both
/// indices are in bounds, and nothing otherwise. The bound on the
/// dimension product rules out tables whose row-by-column size
/// overflowed at construction and left fewer cells allocated than the
/// dimensions claim; on those, get could reach past the storage.
#[verifier::external_body]
pub(crate) fn table_get<'a>(
    table: &'a array2d::Array2D<MazeCell>,
    row: usize,
    column: usize,
) -> (r: Option<&'a MazeCell>)
    requires
        array2d_cells(*table).len() > 0 ==> array2d_cells(*table).len() * array2d_cells(
            *table,
        )[0].len() <= usize::MAX,
    ensures
        match r {
            Some(cell) => {
                &&& row < array2d_cells(*table).len()
                &&& column < array2d_cells(*table)[row as int].len()
                &&& *cell == array2d_cells(*table)[row as int][column as int]
            },
            None => !(row < array2d_cells(*table).len() && column < array2d_cells(
                *table,
            )[row as int].len()),
        },
{
    table.get(row, column)
}

/// A position lies inside the table.
pub open spec fn in_bounds(grid: Seq<Seq<MazeCell>>, p: (usize, usize)) -> bool {
    p.0 < grid.len() && p.1 < grid[p.0 as int].len()
}

/// The cell of the table at a position.
pub open spec fn cell_at(grid: Seq<Seq<MazeCell>>, p: (usize, usize)) -> MazeCell {
    grid[p.0 as int][p.1 as int]
}

/// The cell at (r, c) records its own coordinates, and each of its open
/// directions leads to a neighbouring cell inside the table.
pub open spec fn cell_wf(grid: Seq<Seq<MazeCell>>, r: int, c: int) -> bool {
    let cell = grid[r][c];
    &&& cell.row_index == r
    &&& cell.col_index == c
    &&& cell.available_directions@.contains(Direction::West) ==> c > 0
    &&& cell.available_directions@.contains(Direction::East) ==> c + 1 < grid[r].len()
    &&& cell.available_directions@.contains(Direction::North) ==> r > 0
    &&& cell.available_directions@.contains(Direction::South) ==> r + 1 < grid.len()
}

/// A well-formed maze table: rectangular, small enough to index, and every
/// cell well formed.
pub open spec fn grid_wf(grid: Seq<Seq<MazeCell>>) -> bool {
    &&& grid.len() <= usize::MAX
    &&& grid.len() > 0 ==> grid.len() * grid[0].len() <= usize::MAX
    &&& forall|i: int| 0 <= i < grid.len() ==> (#[trigger] grid[i]).len() <= usize::MAX
    &&& forall|i: int| 0 <= i < grid.len() ==> (#[trigger] grid[i]).len() == grid[0].len()
    &&& forall|r: int, c: int|
        0 <= r < grid.len() && 0 <= c < grid[r].len() ==> #[trigger] cell_wf(grid, r, c)
}

/// Whether a position lies inside the table. Together with
/// [`check_maze_table`] this lets a caller establish everything the
/// solvers assume about their input.
pub fn position_in_table(table: &array2d::Array2D<MazeCell>, pos: (usize, usize)) -> (r: bool)
    ensures
        r == in_bounds(array2d_cells(*table), pos),
{
    let rows = table_num_rows(table);
    let cols = table_num_columns(table);
    pos.0 < rows && pos.1 < cols
}

/// Whether a list of directions holds a given direction.
pub(crate) fn dirs_contain(dirs: &Vec<Direction>, d: Direction) -> (r: bool)
    ensures
        r == dirs@.contains(d),
{
    let mut i: usize = 0;
    while i < dirs.len()
        invariant
            i <= dirs@.len(),
            forall|j: int| 0 <= j < i ==> dirs@[j] != d,
        decreases dirs@.len() - i,
    {
        if dirs[i] == d {
            return true;
        }
        i = i + 1;
    }
    false
}

fn cell_ok(cell: &MazeCell, r: usize, c: usize, rows: usize, cols: usize) -> (b: bool)
    ensures
        b == {
            &&& cell.row_index == r
            &&& cell.col_index == c
            &&& (cell.available_directions@.contains(Direction::West) ==> c > 0)
            &&& (cell.available_directions@.contains(Direction::East) ==> c + 1 < cols)
            &&& (cell.available_directions@.contains(Direction::North) ==> r > 0)
            &&& (cell.available_directions@.contains(Direction::South) ==> r + 1 < rows)
        },
{
    if cell.row_index != r || cell.col_index != c {
        return false;
    }
    if dirs_contain(&cell.available_directions, Direction::West) && !(c > 0) {
        return false;
    }
    if dirs_contain(&cell.available_directions, Direction::East) && !(c < cols && c + 1 < cols) {
        return false;
    }
    if dirs_contain(&cell.available_directions, Direction::North) && !(r > 0) {
        return false;
    }
    if dirs_contain(&cell.available_directions, Direction::South) && !(r < rows && r + 1 < rows) {
        return false;
    }
    true
}

proof fn lemma_product_within(rows: int, cols: int, m: int)
    requires
        0 <= rows,
        0 < cols,
        0 <= m,
    ensures
        rows <= m / cols <==> rows * cols <= m,
{
    vstd::arithmetic::div_mod::lemma_fundamental_div_mod(m, cols);
    vstd::arithmetic::div_mod::lemma_mod_bound(m, cols);
    let q = m / cols;
    if rows <= q {
        assert(rows * cols <= q * cols) by (nonlinear_arith)
            requires
                rows <= q,
                0 < cols,
        ;
        assert(cols * q == q * cols) by (nonlinear_arith);
    } else {
        assert(rows * cols >= (q + 1) * cols) by (nonlinear_arith)
            requires
                rows >= q + 1,
                0 < cols,
        ;
        assert((q + 1) * cols == q * cols + cols) by (nonlinear_arith);
        assert(cols * q == q * cols) by (nonlinear_arith);
    }
}

/// Checks that a maze table is well formed: its size stays within the
/// machine, every cell records its own coordinates, and no open
/// direction leads out of the table. The solvers assume a well-formed
/// table; a caller that built the table from outside data can establish
/// that assumption here.
pub fn check_maze_table(table: &array2d::Array2D<MazeCell>) -> (b: bool)
    ensures
        b == grid_wf(array2d_cells(*table)),
{
    let ghost grid = array2d_cells(*table);
    let rows = table_num_rows(table);
    let cols = table_num_columns(table);
    if rows > 0 && cols > 0 {
        proof {
            lemma_product_within(rows as int, cols as int, usize::MAX as int);
        }
        if rows > usize::MAX / cols {
            assert(grid.len() * grid[0].len() > usize::MAX);
            return false;
        }
    }
    assert(grid.len() > 0 ==> grid.len() * grid[0].len() <= usize::MAX) by {
        if rows > 0 {
            if cols > 0 {
                lemma_product_within(rows as int, cols as int, usize::MAX as int);
            } else {
                assert(grid[0].len() == 0);
            }
        }
    }
    let mut r: usize = 0;
    while r < rows
        invariant
            grid == array2d_cells(*table),
            rows == grid.len(),
            grid.len() > 0 ==> grid.len() * grid[0].len() <= usize::MAX,
            forall|i: int| 0 <= i < grid.len() ==> (#[trigger] grid[i]).len() == cols,
            r <= rows,
            forall|i: int, j: int| 0 <= i < r && 0 <= j < grid[i].len() ==> #[trigger] cell_wf(
                grid,
                i,
                j,
            ),
        decreases rows - r,
    {
        let mut c: usize = 0;
        while c < cols
            invariant
                grid == array2d_cells(*table),
                rows == grid.len(),
                grid.len() > 0 ==> grid.len() * grid[0].len() <= usize::MAX,
                forall|i: int| 0 <= i < grid.len() ==> (#[trigger] grid[i]).len() == cols,
                r < rows,
                c <= cols,
                forall|i: int, j: int| 0 <= i < r && 0 <= j < grid[i].len() ==> #[trigger] cell_wf(
                    grid,
                    i,
                    j,
                ),
                forall|j: int| 0 <= j < c ==> #[trigger] cell_wf(grid, r as int, j),
            decreases cols - c,
        {
            let cell = match table_get(table, r, c) {
                Some(cell) => cell,
                None => {
                    return false;
                },
            };
            if !cell_ok(cell, r, c, rows, cols) {
                assert(!cell_wf(grid, r as int, c as int));
                return false;
            }
            c = c + 1;
        }
        r = r + 1;
    }
    true
}

/// The directions whose flags are set, in the fixed order west, east,
/// north, south of the maze-definition line format.
pub open spec fn flags_to_dirs(w: bool, e: bool, n: bool, s: bool) -> Seq<Direction> {
    (if w {
        seq![Direction::West]
    } else {
        Seq::<Direction>::empty()
    }) + (if e {
        seq![Direction::East]
    } else {
        Seq::<Direction>::empty()
    }) + (if n {
        seq![Direction::North]
    } else {
        Seq::<Direction>::empty()
    }) + (if s {
        seq![Direction::South]
    } else {
        Seq::<Direction>::empty()
    })
}

/// What one line of a maze definition says about its cell.
pub struct ParsedMazeLine {
    /// The cell itself: coordinates, open directions, exit flag.
    pub cell: MazeCell,
    /// The directions out of this cell that start behind a locked door.
    pub locked_directions: Vec<Direction>,
    /// Whether a key lies on this cell.
    pub has_key: bool,
}

fn push_flagged_dirs(line: &Vec<char>, start: usize) -> (dirs: Vec<Direction>)
    requires
        start + 4 <= line@.len(),
    ensures
        dirs@ == flags_to_dirs(
            line@[start as int] == '1',
            line@[start as int + 1] == '1',
            line@[start as int + 2] == '1',
            line@[start as int + 3] == '1',
        ),
{
    let n = line.len();
    assert(start + 4 <= n);
    let mut dirs: Vec<Direction> = Vec::new();
    if line[start] == '1' {
        dirs.push(Direction::West);
    }
    if line[start + 1] == '1' {
        dirs.push(Direction::East);
    }
    if line[start + 2] == '1' {
        dirs.push(Direction::North);
    }
    if line[start + 3] == '1' {
        dirs.push(Direction::South);
    }
    assert(dirs@ =~= flags_to_dirs(
        line@[start as int] == '1',
        line@[start as int + 1] == '1',
        line@[start as int + 2] == '1',
        line@[start as int + 3] == '1',
    ));
    dirs
}

/// Reads one line of a maze definition for the cell at (row, col). The
/// first four flags are the open directions, flags five to eight the sides
/// with a locked door, flags ten and eleven mark a key, flags twelve and
/// thirteen mark the exit. A line shorter than fourteen characters is
/// rejected.
pub fn parse_maze_cell_line(line: &Vec<char>, row: usize, col: usize) -> (r: Option<
    ParsedMazeLine,
>)
    ensures
        r matches Some(p) ==> {
            &&& line@.len() >= 14
            &&& p.cell.row_index == row
            &&& p.cell.col_index == col
            &&& p.cell.available_directions@ == flags_to_dirs(
                line@[0] == '1',
                line@[1] == '1',
                line@[2] == '1',
                line@[3] == '1',
            )
            &&& p.locked_directions@ == flags_to_dirs(
                line@[5] == '1',
                line@[6] == '1',
                line@[7] == '1',
                line@[8] == '1',
            )
            &&& p.has_key == (line@[10] == '1' && line@[11] == '1')
            &&& p.cell.end_of_maze == (line@[12] == '1' && line@[13] == '1')
        },
        r is None <==> line@.len() < 14,
{
    if line.len() < 14 {
        return None;
    }
    let available_directions = push_flagged_dirs(line, 0);
    let locked_directions = push_flagged_dirs(line, 5);
    let has_key = line[10] == '1' && line[11] == '1';
    let end_of_maze = line[12] == '1' && line[13] == '1';
    Some(
        ParsedMazeLine {
            cell: MazeCell { row_index: row, col_index: col, available_directions, end_of_maze },
            locked_directions,
            has_key,
        },
    )
}

} // verus!
