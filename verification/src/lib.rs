//! A sparse simulation of Conway's Game of Life on the unbounded integer
//! plane. Live cells are the only stored state; one generation applies the
//! B3/S23 rule to every coordinate that has at least one live neighbor.

pub mod grid;
pub mod rules;
