//! An evolutionary optimizer for the N-Queens placement problem.
//!
//! A candidate is a permutation: column `x` holds its queen in row
//! `queens[x]`.  Its fitness counts, for every queen, the queens on its two
//! diagonals, so a placement without attacks scores `2 * n`.

pub mod board;
pub mod config;
pub mod conflicts;
pub mod crossover;
pub mod deal;
pub mod engine;
pub mod mutation;
pub mod occupancy;
pub mod placement;
pub mod selection;
pub mod specimen;
pub mod stream;
