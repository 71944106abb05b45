//! Conway's Game of Life on a bounded (non-wrapping) grid, evolved one
//! generation at a time over a partition of the grid into rectangular
//! sub-regions that can be scanned independently.

pub mod board;
pub mod evolve;
pub mod neighbors;
pub mod partition;
pub mod scan;

pub use board::{flip_board, gather_board_values, is_life_board, Board, GridError};
pub use evolve::{advance, apply_moves, merge_moves};
pub use neighbors::count_neighbors;
pub use partition::{get_groups, get_subgrids, partition, ConfigError, SubRegion, NUM_COL_GROUPS, NUM_ROW_GROUPS};
pub use scan::{capture_moves, CellChange};
