//! An autopilot navigation engine for a grid-confined snake. Every tick it
//! chooses a single safe discrete move toward a target cell: either along a
//! precomputed Hamiltonian cycle that covers every cell of the grid exactly
//! once, or by a best-first (A*) search toward a dynamic target that avoids
//! the creature's own body.
//!
//! - [`game`] holds the grid configuration, directions and error kinds.
//! - [`snake`] holds the grid geometry primitives and the creature itself.
//! - [`search`] holds the searcher, the cycle solver and their laws.
//! - [`parse`] turns ASCII maze fixtures into start/end/obstacle layouts.

pub mod game;
pub mod parse;
pub mod search;
pub mod snake;
