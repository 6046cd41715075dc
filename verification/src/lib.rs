//! An abelian sandpile automaton on a toroidal grid.
//!
//! Each cell of a `width x height` grid holds a grain count; a cell with at
//! least four grains topples, sending one grain to each of its four
//! orthogonal neighbors, with indices wrapping at the edges so that the grid
//! is a torus. Steps are driven by a dirty-cell work list, so the cost of a
//! step is proportional to recent activity rather than to grid size.

pub mod grid;
pub mod model;
pub mod render;
pub mod sums;
pub mod world;
