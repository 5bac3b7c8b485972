//! Board engine for a falling-block matching puzzle: a 6-column by 13-row
//! grid of cells (empty, garbage, or one of five colors) packed three bits
//! per cell into one integer per column, with piece placement, gravity,
//! connected-group detection, and chain resolution.

pub mod bitboard;
pub mod model;
pub mod traits;
pub mod types;

