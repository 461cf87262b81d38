//! A breadth-first maze solver for grid mazes with locked doors and keys.
//!
//! A maze is a rectangular table of cells; each cell lists the directions in
//! which a passage exists and whether it is the exit. Some passages are
//! blocked by locked doors that cost one key to open; keys lie on cells and
//! are picked up when the cell is entered. The solvers search the state
//! space keyed by (position, keys held) in breadth-first order and return
//! the first traversal state that reaches an exit cell.

pub mod grid;
pub mod search;
pub mod state;

pub use grid::Direction;
pub use grid::MazeCell;
pub use state::MazeState;
