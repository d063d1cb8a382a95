//! A perfect maze over a rectangular grid that keeps changing while it stays
//! a spanning tree: generation, path queries and one-edge mutations.

pub mod cellset;
pub mod count;
pub mod flood;
pub mod generate;
pub mod graph;
pub mod grid;
pub mod maze;
pub mod mutate;
pub mod path;
pub mod rng;
pub mod shore;
pub mod swap;
pub mod tree;

pub use crate::cellset::CellSet;
pub use crate::grid::{direction, neighbors, opposite, Pos, EAST, NORTH, SOUTH, WEST};
pub use crate::maze::{Cell, Cells};
pub use crate::mutate::{EdgeSwap, Strategy, TopologyMutator};
