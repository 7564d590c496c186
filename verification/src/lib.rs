//! A verified Sokoban solver.
//!
//! The crate parses textual puzzles into `Question` values and searches for a
//! sequence of pushes that places every crate on a target. The search core
//! lives under `solve`; its data structures carry invariants that are checked
//! by Verus.

pub mod question;
pub mod reader;
pub mod solve;
