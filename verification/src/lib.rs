//! Core of a Game of Life simulation on an unbounded two-dimensional grid.
//!
//! The grid is sparse: only the live cells are stored, as a set of lattice
//! coordinates, so memory is proportional to the population rather than to
//! any bounding box. `Index` is a lattice coordinate with its Moore
//! neighborhood; `Grid` is the set of live cells together with the
//! transition function that advances the whole grid by one generation.

pub mod grid;
pub mod index;
pub mod text;

pub use grid::Grid;
pub use index::Index;
