//! Exhaustive enumeration of knight's tours on a rectangular board.
//!
//! The engine is an explicit-stack backtracking search over the board,
//! verified to emit exactly the Hamiltonian knight paths from a chosen
//! start square.  Three consumption strategies share the same verified
//! core: eager batch collection, lazy one-at-a-time streaming, and a
//! fan-out of independent per-first-move searches for concurrent use.

pub mod engine;
pub mod moves;
pub mod strategies;

pub use engine::SearchState;
pub use moves::add_jumps;
pub use moves::Pos;
pub use strategies::branch_seeds;
pub use strategies::solve_batch;
