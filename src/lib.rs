//! Exhaustive move-sequence counting for nested ("ultimate") tic-tac-toe:
//! a 3x3 grid of 3x3 sub-boards, 81 cells in all.
//!
//! - `mask`: 81-bit cell sets.
//! - `rules`: the win table and the sub-board masks.
//! - `position`: positions and the rule for playing one cell.
//! - `laws`: the invariants of positions, kept by every move.
//! - `moves`: the successors of a position.
//! - `counter`: the recursive count of move sequences.
//! - `symmetry`: the eight symmetries of the board and canonical forms.
//! - `dedup`: the count with successors merged by symmetry.
pub mod mask;
pub mod rules;
pub mod position;
pub mod counter;
pub mod laws;
pub mod moves;
pub mod symmetry;
pub mod dedup;
